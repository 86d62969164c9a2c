//! Words as byte strings: their alphabetical order, the split of a run of
//! letters at word boundaries, and the canonical (sorted) form of a sentence.
use std::collections::hash_map::DefaultHasher;
use std::hash::Hasher;
use vstd::multiset::Multiset;
use vstd::prelude::*;
use vstd::std_specs::hash::DefaultHasherAdditionalSpecFns;
use vstd::relations::{sorted_by, total_ordering};
use vstd::seq_lib::{lemma_flatten_concat, lemma_multiset_commutative, lemma_sorted_unique};

verus! {

broadcast use vstd::seq_lib::group_to_multiset_ensures;

/// Alphabetical (byte-wise lexicographic) order, `a` before or equal to `b`.
pub open spec fn lex_le(a: Seq<u8>, b: Seq<u8>) -> bool
    decreases a.len(),
{
    if a.len() == 0 {
        true
    } else if b.len() == 0 {
        false
    } else if a[0] != b[0] {
        a[0] < b[0]
    } else {
        lex_le(a.drop_first(), b.drop_first())
    }
}

/// The alphabetical order as a relation.
pub open spec fn word_order() -> spec_fn(Seq<u8>, Seq<u8>) -> bool {
    |a: Seq<u8>, b: Seq<u8>| lex_le(a, b)
}

/// A sentence whose words stand in alphabetical order.
pub open spec fn sorted_words(s: Seq<Seq<u8>>) -> bool {
    forall|i: int, j: int| 0 <= i < j < s.len() ==> lex_le(#[trigger] s[i], #[trigger] s[j])
}

/// The byte strings held by a vector of words.
pub open spec fn words_view(v: Seq<Vec<u8>>) -> Seq<Seq<u8>> {
    v.map_values(|w: Vec<u8>| w@)
}

/// The letters of a sentence, as a multiset.
pub open spec fn letters(s: Seq<Seq<u8>>) -> Multiset<u8> {
    s.flatten().to_multiset()
}

proof fn lemma_lex_refl(a: Seq<u8>)
    ensures
        lex_le(a, a),
    decreases a.len(),
{
    if a.len() > 0 {
        lemma_lex_refl(a.drop_first());
    }
}

proof fn lemma_lex_total(a: Seq<u8>, b: Seq<u8>)
    ensures
        lex_le(a, b) || lex_le(b, a),
    decreases a.len(),
{
    if a.len() > 0 && b.len() > 0 && a[0] == b[0] {
        lemma_lex_total(a.drop_first(), b.drop_first());
    }
}

proof fn lemma_lex_antisym(a: Seq<u8>, b: Seq<u8>)
    requires
        lex_le(a, b),
        lex_le(b, a),
    ensures
        a == b,
    decreases a.len(),
{
    if a.len() > 0 && b.len() > 0 {
        assert(a[0] == b[0]);
        lemma_lex_antisym(a.drop_first(), b.drop_first());
        assert(a.len() == b.len());
        assert forall|i: int| 0 <= i < a.len() implies a[i] == b[i] by {
            if i > 0 {
                assert(a[i] == a.drop_first()[i - 1]);
                assert(b[i] == b.drop_first()[i - 1]);
            }
        }
        assert(a =~= b);
    } else {
        assert(a =~= b);
    }
}

proof fn lemma_lex_trans(a: Seq<u8>, b: Seq<u8>, c: Seq<u8>)
    requires
        lex_le(a, b),
        lex_le(b, c),
    ensures
        lex_le(a, c),
    decreases a.len(),
{
    if a.len() > 0 && b.len() > 0 && c.len() > 0 && a[0] == b[0] && b[0] == c[0] {
        lemma_lex_trans(a.drop_first(), b.drop_first(), c.drop_first());
    }
}

/// Alphabetical order is a total order.
pub proof fn lemma_word_order_total()
    ensures
        total_ordering(word_order()),
{
    assert forall|a: Seq<u8>| #[trigger] word_order()(a, a) by {
        lemma_lex_refl(a);
    }
    assert forall|a: Seq<u8>, b: Seq<u8>|
        #[trigger] word_order()(a, b) && #[trigger] word_order()(b, a) implies a == b by {
        lemma_lex_antisym(a, b);
    }
    assert forall|a: Seq<u8>, b: Seq<u8>, c: Seq<u8>|
        #[trigger] word_order()(a, b) && #[trigger] word_order()(b, c) implies word_order()(
        a,
        c,
    ) by {
        lemma_lex_trans(a, b, c);
    }
    assert forall|a: Seq<u8>, b: Seq<u8>|
        #[trigger] word_order()(a, b) || #[trigger] word_order()(b, a) by {
        lemma_lex_total(a, b);
    }
}

/// Two sentences in alphabetical order with the same words are the same sentence.
pub proof fn lemma_sorted_words_unique(x: Seq<Seq<u8>>, y: Seq<Seq<u8>>)
    requires
        sorted_words(x),
        sorted_words(y),
        x.to_multiset() == y.to_multiset(),
    ensures
        x == y,
{
    lemma_word_order_total();
    assert(sorted_by(x, word_order()));
    assert(sorted_by(y, word_order()));
    lemma_sorted_unique(x, y, word_order());
}

/// The letters of a sentence cut around one of its words.
pub proof fn lemma_letters_split(x: Seq<Seq<u8>>, w: Seq<u8>, y: Seq<Seq<u8>>)
    ensures
        letters(x + seq![w] + y) == letters(x).add(w.to_multiset()).add(letters(y)),
{
    lemma_flatten_concat(x + seq![w], y);
    lemma_flatten_concat(x, seq![w]);
    seq![w].lemma_flatten_one_element();
    lemma_multiset_commutative((x + seq![w]).flatten(), y.flatten());
    lemma_multiset_commutative(x.flatten(), w);
}

/// Reordering the words of a sentence keeps its letters.
pub proof fn lemma_letters_permutation(x: Seq<Seq<u8>>, y: Seq<Seq<u8>>)
    requires
        x.to_multiset() == y.to_multiset(),
    ensures
        letters(x) == letters(y),
    decreases x.len(),
{
    broadcast use vstd::multiset::group_multiset_axioms;

    if x.len() == 0 {
        assert(y.len() == 0) by {
            if y.len() > 0 {
                assert(y.to_multiset().contains(y[0]));
            }
        }
        assert(x =~= y);
    } else {
        let w = x[0];
        assert(x.to_multiset().contains(w));
        assert(y.to_multiset().contains(w));
        let k = choose|k: int| 0 <= k < y.len() && y[k] == w;
        let y0 = y.subrange(0, k);
        let y1 = y.subrange(k + 1, y.len() as int);
        assert(y =~= y0 + seq![w] + y1);
        let rest = y0 + y1;
        lemma_multiset_commutative(y0 + seq![w], y1);
        lemma_multiset_commutative(y0, seq![w]);
        lemma_multiset_commutative(y0, y1);
        assert(x =~= seq![w] + x.drop_first());
        lemma_multiset_commutative(seq![w], x.drop_first());
        assert(seq![w].to_multiset() =~= Multiset::singleton(w)) by {
            assert(seq![w] =~= Seq::<Seq<u8>>::empty().push(w));
        }
        assert(y.to_multiset() == y0.to_multiset().add(seq![w].to_multiset()).add(
            y1.to_multiset(),
        ));
        assert(x.to_multiset() == seq![w].to_multiset().add(x.drop_first().to_multiset()));
        assert(rest.to_multiset() == y0.to_multiset().add(y1.to_multiset()));
        assert forall|v: Seq<u8>|
            x.drop_first().to_multiset().count(v) == rest.to_multiset().count(v) by {
            assert(x.to_multiset().count(v) == y.to_multiset().count(v));
            assert(y.to_multiset().count(v) == y0.to_multiset().count(v) + seq![w].to_multiset().count(
                v,
            ) + y1.to_multiset().count(v));
            assert(x.to_multiset().count(v) == seq![w].to_multiset().count(v)
                + x.drop_first().to_multiset().count(v));
            assert(rest.to_multiset().count(v) == y0.to_multiset().count(v) + y1.to_multiset().count(
                v,
            ));
        }
        assert(x.drop_first().to_multiset() =~= rest.to_multiset());
        lemma_letters_permutation(x.drop_first(), rest);
        lemma_letters_split(y0, w, y1);
        lemma_letters_split(Seq::empty(), w, x.drop_first());
        assert(Seq::<Seq<u8>>::empty() + seq![w] + x.drop_first() =~= x);
        lemma_flatten_concat(y0, y1);
        lemma_multiset_commutative(y0.flatten(), y1.flatten());
        assert(Seq::<Seq<u8>>::empty().flatten() =~= Seq::<u8>::empty());
        assert(letters(y) =~= letters(x));
    }
}

/// Byte-wise comparison in alphabetical order.
pub fn bytes_le(a: &[u8], b: &[u8]) -> (r: bool)
    ensures
        r == lex_le(a@, b@),
{
    let mut i: usize = 0;
    assert(a@.skip(0) =~= a@);
    assert(b@.skip(0) =~= b@);
    while i < a.len() && i < b.len()
        invariant
            i <= a.len(),
            i <= b.len(),
            lex_le(a@, b@) == lex_le(a@.skip(i as int), b@.skip(i as int)),
        decreases a.len() - i,
    {
        if a[i] != b[i] {
            return a[i] < b[i];
        }
        assert(a@.skip(i as int).drop_first() =~= a@.skip(i + 1));
        assert(b@.skip(i as int).drop_first() =~= b@.skip(i + 1));
        i = i + 1;
    }
    i == a.len()
}

/// Equality of two byte strings.
pub fn bytes_eq(a: &[u8], b: &[u8]) -> (r: bool)
    ensures
        r == (a@ == b@),
{
    if a.len() != b.len() {
        return false;
    }
    let mut i: usize = 0;
    while i < a.len()
        invariant
            i <= a.len(),
            a.len() == b.len(),
            a@.subrange(0, i as int) == b@.subrange(0, i as int),
        decreases a.len() - i,
    {
        if a[i] != b[i] {
            return false;
        }
        assert(a@.subrange(0, i + 1) =~= a@.subrange(0, i as int).push(a[i as int]));
        assert(b@.subrange(0, i + 1) =~= b@.subrange(0, i as int).push(b[i as int]));
        i = i + 1;
    }
    assert(a@ =~= a@.subrange(0, i as int));
    assert(b@ =~= b@.subrange(0, i as int));
    true
}

/// A fresh vector holding the bytes `s[lo..hi]`.
pub fn copy_range(s: &[u8], lo: usize, hi: usize) -> (r: Vec<u8>)
    requires
        lo <= hi <= s@.len(),
    ensures
        r@ == s@.subrange(lo as int, hi as int),
{
    let mut r: Vec<u8> = Vec::new();
    let mut i: usize = lo;
    while i < hi
        invariant
            lo <= i <= hi <= s@.len(),
            r@ == s@.subrange(lo as int, i as int),
        decreases hi - i,
    {
        r.push(s[i]);
        assert(r@ =~= s@.subrange(lo as int, i + 1));
        i = i + 1;
    }
    r
}

/// Where the `i`-th word of a split starts.
pub open spec fn piece_start(spaces: Seq<usize>, i: int) -> int {
    if i == 0 {
        0
    } else {
        spaces[i - 1] as int
    }
}

/// Where the `i`-th word of a split ends.
pub open spec fn piece_end(len: int, spaces: Seq<usize>, i: int) -> int {
    if i < spaces.len() {
        spaces[i] as int
    } else {
        len
    }
}

/// Boundary offsets that cut `len` letters into words: in order, none past the end.
pub open spec fn spaces_wf(len: int, spaces: Seq<usize>) -> bool {
    forall|i: int| 0 <= i < spaces.len() ==> piece_start(spaces, i) <= #[trigger] spaces[i] <= len
}

/// The words that the boundaries cut `letters` into: one more than boundaries.
pub open spec fn split_words(letters: Seq<u8>, spaces: Seq<usize>) -> Seq<Seq<u8>> {
    Seq::new(
        (spaces.len() + 1) as nat,
        |i: int| letters.subrange(piece_start(spaces, i), piece_end(letters.len() as int, spaces, i)),
    )
}

/// The word after the last boundary.
pub open spec fn last_piece(letters: Seq<u8>, spaces: Seq<usize>) -> Seq<u8> {
    letters.subrange(piece_start(spaces, spaces.len() as int), letters.len() as int)
}

/// The letters of `prefix` after the last boundary of `spaces`.
pub fn last_word(prefix: &[u8], spaces: &[usize]) -> (r: Vec<u8>)
    requires
        spaces@.len() > 0 ==> spaces@.last() <= prefix@.len(),
    ensures
        r@ == last_piece(prefix@, spaces@),
{
    let mut i: usize = 0;
    if spaces.len() > 0 {
        i = spaces[spaces.len() - 1];
    }
    copy_range(prefix, i, prefix.len())
}

/// Sorts words alphabetically, by insertion.
pub fn sort_words(v: Vec<Vec<u8>>) -> (r: Vec<Vec<u8>>)
    ensures
        words_view(r@).to_multiset() == words_view(v@).to_multiset(),
        sorted_words(words_view(r@)),
{
    broadcast use vstd::multiset::group_multiset_axioms;

    let mut r: Vec<Vec<u8>> = Vec::new();
    let mut i: usize = 0;
    while i < v.len()
        invariant
            i <= v@.len(),
            words_view(r@).to_multiset() == words_view(v@.subrange(0, i as int)).to_multiset(),
            sorted_words(words_view(r@)),
        decreases v.len() - i,
    {
        let w = copy_range(v[i].as_slice(), 0, v[i].len());
        assert(v[i as int]@.subrange(0, v[i as int]@.len() as int) =~= v[i as int]@);
        let mut p: usize = 0;
        loop
            invariant
                p <= r@.len(),
                forall|k: int| 0 <= k < p ==> lex_le(#[trigger] r@[k]@, w@),
            ensures
                p <= r@.len(),
                forall|k: int| 0 <= k < p ==> lex_le(#[trigger] r@[k]@, w@),
                p < r@.len() ==> !lex_le(r@[p as int]@, w@),
            decreases r.len() - p,
        {
            if p >= r.len() {
                break;
            }
            if !bytes_le(r[p].as_slice(), w.as_slice()) {
                break;
            }
            p = p + 1;
        }
        proof {
            if p < r@.len() {
                lemma_lex_total(r@[p as int]@, w@);
            }
        }
        let ghost old_r = r@;
        r.insert(p, w);
        proof {
            let s = words_view(old_r);
            let s0 = s.subrange(0, p as int);
            let s1 = s.subrange(p as int, s.len() as int);
            assert(words_view(r@) =~= s0 + seq![w@] + s1);
            assert(s =~= s0 + s1);
            lemma_multiset_commutative(s0 + seq![w@], s1);
            lemma_multiset_commutative(s0, seq![w@]);
            lemma_multiset_commutative(s0, s1);
            assert(words_view(v@.subrange(0, i + 1)) =~= words_view(v@.subrange(0, i as int)).push(
                w@,
            ));
            let t = words_view(r@);
            assert forall|a: int, b: int| 0 <= a < b < t.len() implies lex_le(
                #[trigger] t[a],
                #[trigger] t[b],
            ) by {
                if b > p + 1 {
                    lemma_lex_trans(w@, s[p as int], t[b]);
                }
                if a < p && b > p {
                    lemma_lex_trans(t[a], w@, t[b]);
                }
            }
            assert(words_view(r@).to_multiset() =~= words_view(v@.subrange(0, i + 1)).to_multiset());
        }
        i = i + 1;
    }
    assert(v@.subrange(0, i as int) =~= v@);
    r
}

/// Cuts `letters` at the boundaries and returns the words in alphabetical order.
pub fn get_sentence(letters: &[u8], spaces: &[usize]) -> (r: Vec<Vec<u8>>)
    requires
        spaces_wf(letters@.len() as int, spaces@),
    ensures
        words_view(r@).to_multiset() == split_words(letters@, spaces@).to_multiset(),
        sorted_words(words_view(r@)),
{
    let ghost whole = split_words(letters@, spaces@);
    let mut pieces: Vec<Vec<u8>> = Vec::new();
    let mut start: usize = 0;
    let mut k: usize = 0;
    while k < spaces.len()
        invariant
            k <= spaces@.len(),
            spaces_wf(letters@.len() as int, spaces@),
            whole == split_words(letters@, spaces@),
            start as int == piece_start(spaces@, k as int),
            start <= letters@.len(),
            words_view(pieces@) == whole.subrange(0, k as int),
        decreases spaces.len() - k,
    {
        let end = spaces[k];
        assert(piece_start(spaces@, k as int) <= spaces@[k as int] <= letters@.len());
        let w = copy_range(letters, start, end);
        let ghost before = pieces@;
        pieces.push(w);
        assert(whole[k as int] == letters@.subrange(start as int, end as int));
        assert(words_view(pieces@) =~= words_view(before).push(w@));
        assert(words_view(pieces@) =~= whole.subrange(0, k + 1));
        start = end;
        k = k + 1;
    }
    let w = copy_range(letters, start, letters.len());
    let ghost before = pieces@;
    pieces.push(w);
    assert(whole[k as int] == letters@.subrange(start as int, letters@.len() as int));
    assert(words_view(pieces@) =~= words_view(before).push(w@));
    assert(words_view(pieces@) =~= whole);
    sort_words(pieces)
}

/// The digest of a sentence: each word fed in turn to std's default hasher.
pub fn compute_hash(v: &[Vec<u8>]) -> (r: u64)
    ensures
        r == DefaultHasher::spec_finish(words_view(v@)),
{
    let mut hasher = DefaultHasher::new();
    let mut i: usize = 0;
    while i < v.len()
        invariant
            i <= v@.len(),
            hasher@ == words_view(v@).subrange(0, i as int),
        decreases v.len() - i,
    {
        hasher.write(v[i].as_slice());
        assert(hasher@ =~= words_view(v@).subrange(0, i + 1));
        i = i + 1;
    }
    assert(words_view(v@) =~= words_view(v@).subrange(0, i as int));
    hasher.finish()
}

} // verus!
