//! Ranking and rendering: the sentences found, most words first, each as
//! one line of space-separated words.
use crate::search::{lemma_no_permuted_duplicates, sentences_view, valid_sentence, ResultSet};
use crate::words::{bytes_eq, copy_range, letters, lemma_letters_split, words_view};
use vstd::multiset::Multiset;
use vstd::prelude::*;
use vstd::seq_lib::lemma_multiset_commutative;

verus! {

broadcast use vstd::seq_lib::group_to_multiset_ensures;

/// The words of a sentence joined by single spaces.
pub open spec fn join_words(ws: Seq<Seq<u8>>) -> Seq<u8>
    decreases ws.len(),
{
    if ws.len() == 0 {
        Seq::empty()
    } else if ws.len() == 1 {
        ws[0]
    } else {
        join_words(ws.drop_last()) + seq![32u8] + ws.last()
    }
}

/// A sentence as an output line: after the hint and a space when a hint is given.
pub open spec fn line_of(ws: Seq<Seq<u8>>, hint: Seq<u8>) -> Seq<u8> {
    if hint.len() == 0 {
        join_words(ws)
    } else {
        hint + seq![32u8] + join_words(ws)
    }
}

/// Sentences in non-increasing order of word count.
pub open spec fn ranked(s: Seq<Seq<Seq<u8>>>) -> bool {
    forall|i: int, j: int| 0 <= i < j < s.len() ==> (#[trigger] s[i]).len() >= (#[trigger] s[j]).len()
}

/// A fresh copy of a sentence.
pub fn copy_sentence(s: &Vec<Vec<u8>>) -> (r: Vec<Vec<u8>>)
    ensures
        words_view(r@) == words_view(s@),
{
    let mut r: Vec<Vec<u8>> = Vec::new();
    let mut i: usize = 0;
    while i < s.len()
        invariant
            i <= s@.len(),
            words_view(r@) == words_view(s@).subrange(0, i as int),
        decreases s.len() - i,
    {
        let w = copy_range(s[i].as_slice(), 0, s[i].len());
        assert(s@[i as int]@.subrange(0, s@[i as int]@.len() as int) =~= s@[i as int]@);
        let ghost before = r@;
        r.push(w);
        assert(words_view(r@) =~= words_view(before).push(w@));
        assert(words_view(r@) =~= words_view(s@).subrange(0, i + 1));
        i = i + 1;
    }
    assert(words_view(s@).subrange(0, i as int) =~= words_view(s@));
    r
}

/// The sentences of `results`, those with most words first; sentences with
/// as many words keep the order in which they were found.
pub fn rank_sentences(results: &ResultSet) -> (r: Vec<Vec<Vec<u8>>>)
    requires
        results.wf(),
    ensures
        sentences_view(r@).to_multiset() == results.sentences().to_multiset(),
        ranked(sentences_view(r@)),
{
    broadcast use vstd::multiset::group_multiset_axioms;

    let ghost all = results.sentences();
    let mut r: Vec<Vec<Vec<u8>>> = Vec::new();
    let mut i: usize = 0;
    let n = results.len();
    while i < n
        invariant
            n == all.len(),
            all == results.sentences(),
            results.wf(),
            i <= n,
            sentences_view(r@).to_multiset() == all.subrange(0, i as int).to_multiset(),
            ranked(sentences_view(r@)),
        decreases n - i,
    {
        let s = copy_sentence(results.get(i));
        let count = s.len();
        let mut p: usize = 0;
        loop
            invariant
                p <= r@.len(),
                forall|k: int| 0 <= k < p ==> (#[trigger] r@[k]).len() >= count,
            ensures
                p <= r@.len(),
                forall|k: int| 0 <= k < p ==> (#[trigger] r@[k]).len() >= count,
                p < r@.len() ==> r@[p as int].len() < count,
            decreases r.len() - p,
        {
            if p >= r.len() {
                break;
            }
            if r[p].len() < count {
                break;
            }
            p = p + 1;
        }
        let ghost old_r = sentences_view(r@);
        let ghost e = words_view(s@);
        r.insert(p, s);
        proof {
            let s0 = old_r.subrange(0, p as int);
            let s1 = old_r.subrange(p as int, old_r.len() as int);
            assert(sentences_view(r@) =~= s0 + seq![e] + s1);
            assert(old_r =~= s0 + s1);
            lemma_multiset_commutative(s0 + seq![e], s1);
            lemma_multiset_commutative(s0, seq![e]);
            lemma_multiset_commutative(s0, s1);
            assert(all.subrange(0, i + 1) =~= all.subrange(0, i as int).push(e));
            let t = sentences_view(r@);
            assert forall|a: int, b: int| 0 <= a < b < t.len() implies (#[trigger] t[a]).len() >= (
            #[trigger] t[b]).len() by {
                if a < p {
                    assert(t[a] == old_r[a]);
                    assert(old_r[a].len() == r@[a].len());
                }
                if a == p && b > p {
                    assert(t[b] == old_r[b - 1]);
                    assert(old_r[p as int].len() == r@[p as int + 1].len());
                }
                if b > p {
                    assert(t[b] == old_r[b - 1]);
                }
                if a > p {
                    assert(t[a] == old_r[a - 1]);
                }
                if b < p {
                    assert(t[b] == old_r[b]);
                }
                if b == p {
                    assert(t[b] == e);
                }
            }
            assert(sentences_view(r@).to_multiset() =~= all.subrange(0, i + 1).to_multiset());
        }
        i = i + 1;
    }
    assert(all.subrange(0, i as int) =~= all);
    r
}

/// Appends the bytes of `w` to `r`.
fn append_bytes(r: &mut Vec<u8>, w: &[u8])
    ensures
        final(r)@ == old(r)@ + w@,
{
    let mut k: usize = 0;
    while k < w.len()
        invariant
            k <= w@.len(),
            r@ == old(r)@ + w@.subrange(0, k as int),
        decreases w.len() - k,
    {
        r.push(w[k]);
        assert(r@ =~= old(r)@ + w@.subrange(0, k + 1));
        k = k + 1;
    }
    assert(w@.subrange(0, k as int) =~= w@);
}

/// One output line: the hint and a space, when a hint is given, then the
/// words separated by single spaces.
pub fn render_line(sentence: &Vec<Vec<u8>>, hint: &[u8]) -> (r: Vec<u8>)
    ensures
        r@ == line_of(words_view(sentence@), hint@),
{
    let ghost ws = words_view(sentence@);
    let mut r: Vec<u8> = Vec::new();
    if hint.len() > 0 {
        append_bytes(&mut r, hint);
        r.push(32u8);
    }
    let ghost base = r@;
    assert(base + join_words(ws.subrange(0, 0)) =~= base);
    let mut i: usize = 0;
    while i < sentence.len()
        invariant
            i <= sentence@.len(),
            ws == words_view(sentence@),
            r@ == base + join_words(ws.subrange(0, i as int)),
        decreases sentence.len() - i,
    {
        if i > 0 {
            r.push(32u8);
        }
        append_bytes(&mut r, sentence[i].as_slice());
        proof {
            let pre = ws.subrange(0, i + 1);
            assert(pre.drop_last() =~= ws.subrange(0, i as int));
            assert(pre.last() == ws[i as int]);
            if i == 0 {
                assert(join_words(pre) == pre[0]);
            }
            assert(r@ =~= base + join_words(pre));
        }
        i = i + 1;
    }
    assert(ws.subrange(0, i as int) =~= ws);
    r
}

/// The lines of `s` in order, each line kept at its first occurrence only.
pub open spec fn unique_lines(s: Seq<Seq<u8>>) -> Seq<Seq<u8>>
    decreases s.len(),
{
    if s.len() == 0 {
        Seq::empty()
    } else if unique_lines(s.drop_last()).contains(s.last()) {
        unique_lines(s.drop_last())
    } else {
        unique_lines(s.drop_last()).push(s.last())
    }
}

/// The output line of each sentence, in the same order.
pub open spec fn all_lines(sentences: Seq<Seq<Seq<u8>>>, hint: Seq<u8>) -> Seq<Seq<u8>> {
    sentences.map_values(|ws: Seq<Seq<u8>>| line_of(ws, hint))
}

/// Whether some line of `lines` equals `line`.
fn holds_line(lines: &Vec<Vec<u8>>, line: &Vec<u8>) -> (r: bool)
    ensures
        r == words_view(lines@).contains(line@),
{
    let mut i: usize = 0;
    while i < lines.len()
        invariant
            i <= lines@.len(),
            forall|k: int| 0 <= k < i ==> lines@[k]@ != line@,
        decreases lines.len() - i,
    {
        if bytes_eq(lines[i].as_slice(), line.as_slice()) {
            assert(words_view(lines@)[i as int] == line@);
            return true;
        }
        i = i + 1;
    }
    assert forall|k: int| 0 <= k < words_view(lines@).len() implies words_view(lines@)[k] != line@ by {
        assert(words_view(lines@)[k] == lines@[k]@);
    }
    false
}

/// The output lines of ranked sentences, in the same order, with a line
/// that repeats an earlier one left out.
pub fn render_lines(sentences: &Vec<Vec<Vec<u8>>>, hint: &[u8]) -> (r: Vec<Vec<u8>>)
    ensures
        words_view(r@) == unique_lines(all_lines(sentences_view(sentences@), hint@)),
{
    let ghost full = all_lines(sentences_view(sentences@), hint@);
    let mut r: Vec<Vec<u8>> = Vec::new();
    let mut i: usize = 0;
    assert(full.subrange(0, 0) =~= Seq::<Seq<u8>>::empty());
    assert(words_view(r@) =~= Seq::<Seq<u8>>::empty());
    while i < sentences.len()
        invariant
            i <= sentences@.len(),
            full == all_lines(sentences_view(sentences@), hint@),
            words_view(r@) == unique_lines(full.subrange(0, i as int)),
        decreases sentences.len() - i,
    {
        let line = render_line(&sentences[i], hint);
        let ghost pre = full.subrange(0, i + 1);
        assert(pre.drop_last() =~= full.subrange(0, i as int));
        assert(pre.last() == line@);
        if !holds_line(&r, &line) {
            let ghost before = r@;
            r.push(line);
            assert(words_view(r@) =~= words_view(before).push(line@));
        }
        i = i + 1;
    }
    assert(full.subrange(0, i as int) =~= full);
    r
}

/// Ranking loses nothing and adds nothing: every ranked sentence is a
/// sentence of the result set, so it is an anagram sentence of the letters
/// when those all are; and no two ranked sentences hold the same words in
/// another order.
pub proof fn lemma_ranked_output(
    results: ResultSet,
    ranked: Seq<Seq<Seq<u8>>>,
    words: Set<Seq<u8>>,
    max_spaces: int,
    input: Multiset<u8>,
)
    requires
        results.wf(),
        ranked.to_multiset() == results.sentences().to_multiset(),
    ensures
        forall|i: int|
            0 <= i < ranked.len() ==> results.sentences().contains(#[trigger] ranked[i]),
        (forall|k: int|
            0 <= k < results.sentences().len() ==> valid_sentence(
                #[trigger] results.sentences()[k],
                words,
                max_spaces,
                input,
            )) ==> forall|i: int|
            0 <= i < ranked.len() ==> valid_sentence(#[trigger] ranked[i], words, max_spaces, input),
        forall|i: int, j: int|
            0 <= i < j < ranked.len() ==> (#[trigger] ranked[i]).to_multiset() != (
            #[trigger] ranked[j]).to_multiset(),
{
    broadcast use vstd::multiset::group_multiset_axioms;

    let all = results.sentences();
    lemma_no_permuted_duplicates(results);
    assert(all.no_duplicates());
    all.lemma_multiset_has_no_duplicates();
    ranked.lemma_multiset_has_no_duplicates_conv();
    assert forall|i: int| 0 <= i < ranked.len() implies all.contains(#[trigger] ranked[i]) by {
        assert(ranked.contains(ranked[i]));
        assert(ranked.to_multiset().count(ranked[i]) > 0);
    }
    if forall|k: int|
        0 <= k < all.len() ==> valid_sentence(#[trigger] all[k], words, max_spaces, input) {
        assert forall|i: int| 0 <= i < ranked.len() implies valid_sentence(
            #[trigger] ranked[i],
            words,
            max_spaces,
            input,
        ) by {
            assert(all.contains(ranked[i]));
            let k = choose|k: int| 0 <= k < all.len() && all[k] == ranked[i];
            assert(valid_sentence(all[k], words, max_spaces, input));
        }
    }
    assert forall|i: int, j: int| 0 <= i < j < ranked.len() implies (
    #[trigger] ranked[i]).to_multiset() != (#[trigger] ranked[j]).to_multiset() by {
        assert(all.contains(ranked[i]));
        assert(all.contains(ranked[j]));
        let a = choose|k: int| 0 <= k < all.len() && all[k] == ranked[i];
        let b = choose|k: int| 0 <= k < all.len() && all[k] == ranked[j];
        assert(ranked[i] != ranked[j]);
        if a < b {
            assert(all[a].to_multiset() != all[b].to_multiset());
        } else {
            assert(all[b].to_multiset() != all[a].to_multiset());
        }
    }
}

/// The number of spaces in a line.
pub open spec fn spaces_in(s: Seq<u8>) -> nat
    decreases s.len(),
{
    if s.len() == 0 {
        0
    } else {
        spaces_in(s.drop_last()) + if s.last() == 32 {
            1nat
        } else {
            0nat
        }
    }
}

proof fn lemma_spaces_concat(a: Seq<u8>, b: Seq<u8>)
    ensures
        spaces_in(a + b) == spaces_in(a) + spaces_in(b),
    decreases b.len(),
{
    if b.len() == 0 {
        assert(a + b =~= a);
    } else {
        lemma_spaces_concat(a, b.drop_last());
        assert((a + b).drop_last() =~= a + b.drop_last());
    }
}

proof fn lemma_no_space(w: Seq<u8>)
    requires
        !w.contains(32u8),
    ensures
        spaces_in(w) == 0,
    decreases w.len(),
{
    if w.len() > 0 {
        assert(w[w.len() - 1] != 32u8);
        assert(!w.drop_last().contains(32u8)) by {
            if w.drop_last().contains(32u8) {
                let k = choose|k: int| 0 <= k < w.drop_last().len() && w.drop_last()[k] == 32u8;
                assert(w[k] == 32u8);
            }
        }
        lemma_no_space(w.drop_last());
    }
}

/// A line has one space less than its sentence has words (after those of
/// the hint and the one that follows it), when no word holds a space.
pub proof fn lemma_line_spaces(ws: Seq<Seq<u8>>, hint: Seq<u8>)
    requires
        ws.len() >= 1,
        forall|i: int| 0 <= i < ws.len() ==> !(#[trigger] ws[i]).contains(32u8),
    ensures
        spaces_in(line_of(ws, hint)) == ws.len() - 1 + if hint.len() == 0 {
            0
        } else {
            spaces_in(hint) + 1
        },
    decreases ws.len(),
{
    assert(seq![32u8].drop_last() =~= Seq::<u8>::empty());
    assert(seq![32u8].last() == 32u8);
    assert(spaces_in(Seq::<u8>::empty()) == 0);
    assert(spaces_in(seq![32u8]) == spaces_in(seq![32u8].drop_last()) + 1);
    assert(spaces_in(seq![32u8]) == 1);
    if ws.len() == 1 {
        lemma_no_space(ws[0]);
    } else {
        lemma_line_spaces(ws.drop_last(), Seq::<u8>::empty());
        lemma_no_space(ws.last());
        lemma_spaces_concat(join_words(ws.drop_last()), seq![32u8]);
        lemma_spaces_concat(join_words(ws.drop_last()) + seq![32u8], ws.last());
    }
    assert(spaces_in(join_words(ws)) == ws.len() - 1);
    if hint.len() > 0 {
        lemma_spaces_concat(hint, seq![32u8]);
        lemma_spaces_concat(hint + seq![32u8], join_words(ws));
    }
}

/// Ranked sentences give lines in non-increasing order of spaces, when no
/// word holds a space.
pub proof fn lemma_ranked_lines(sentences: Seq<Seq<Seq<u8>>>, hint: Seq<u8>)
    requires
        ranked(sentences),
        forall|i: int| 0 <= i < sentences.len() ==> (#[trigger] sentences[i]).len() >= 1,
        forall|i: int, k: int|
            0 <= i < sentences.len() && 0 <= k < sentences[i].len() ==> !(
            #[trigger] sentences[i][k]).contains(32u8),
    ensures
        forall|i: int, j: int|
            0 <= i < j < sentences.len() ==> spaces_in(#[trigger] all_lines(sentences, hint)[i])
                >= spaces_in(#[trigger] all_lines(sentences, hint)[j]),
{
    assert forall|i: int, j: int| 0 <= i < j < sentences.len() implies spaces_in(
        #[trigger] all_lines(sentences, hint)[i],
    ) >= spaces_in(#[trigger] all_lines(sentences, hint)[j]) by {
        let a = sentences[i];
        let b = sentences[j];
        assert forall|k: int| 0 <= k < a.len() implies !(#[trigger] a[k]).contains(32u8) by {
            assert(!sentences[i][k].contains(32u8));
        }
        assert forall|k: int| 0 <= k < b.len() implies !(#[trigger] b[k]).contains(32u8) by {
            assert(!sentences[j][k].contains(32u8));
        }
        lemma_line_spaces(a, hint);
        lemma_line_spaces(b, hint);
    }
}

/// The words of a sentence spelling letters without a space hold no space.
pub proof fn lemma_words_without_space(s: Seq<Seq<u8>>, input: Seq<u8>)
    requires
        letters(s) == input.to_multiset(),
        !input.contains(32u8),
    ensures
        forall|i: int| 0 <= i < s.len() ==> !(#[trigger] s[i]).contains(32u8),
{
    broadcast use vstd::multiset::group_multiset_axioms;

    assert forall|i: int| 0 <= i < s.len() implies !(#[trigger] s[i]).contains(32u8) by {
        if s[i].contains(32u8) {
            let x = s.subrange(0, i);
            let y = s.subrange(i + 1, s.len() as int);
            assert(s =~= x + seq![s[i]] + y);
            lemma_letters_split(x, s[i], y);
            assert(s[i].to_multiset().count(32u8) > 0);
            assert(input.to_multiset().count(32u8) > 0);
        }
    }
}

} // verus!
