//! The dictionary index: a prefix-queryable set of normalized words.
use patricia_tree::PatriciaSet;
use crate::input::lower_byte;
use unicode_normalization::UnicodeNormalization;
use vstd::prelude::*;

verus! {

#[verifier::external_type_specification]
#[verifier::external_body]
#[verifier::reject_recursive_types(T)]
pub struct ExGenericPatriciaSet<T>(patricia_tree::GenericPatriciaSet<T>);

/// The byte strings held by a patricia set.
pub uninterp spec fn trie_words(t: PatriciaSet) -> Set<Seq<u8>>;

/// Relies on `PatriciaSet::new`: a new set holds nothing.
#[verifier::external_body]
fn trie_new() -> (r: PatriciaSet)
    ensures
        trie_words(r) == Set::<Seq<u8>>::empty(),
{
    PatriciaSet::new()
}

/// Relies on `PatriciaSet::insert`: the value is added, the others stay.
#[verifier::external_body]
fn trie_insert(t: &mut PatriciaSet, w: &[u8])
    ensures
        trie_words(*final(t)) == trie_words(*old(t)).insert(w@),
{
    t.insert(w);
}

/// Relies on `PatriciaSet::contains`: exact membership.
#[verifier::external_body]
fn trie_contains(t: &PatriciaSet, w: &[u8]) -> (r: bool)
    ensures
        r == trie_words(*t).contains(w@),
{
    t.contains(w)
}

/// Relies on `PatriciaSet::iter_prefix`: it yields exactly the held values
/// that start with `p`, so it yields something iff one of them does.
#[verifier::external_body]
fn trie_has_prefix(t: &PatriciaSet, p: &[u8]) -> (r: bool)
    ensures
        r == prefixes_some(trie_words(*t), p@),
{
    t.iter_prefix(p).next().is_some()
}

/// Whether some word of `words` starts with `p` (or equals it).
pub open spec fn prefixes_some(words: Set<Seq<u8>>, p: Seq<u8>) -> bool {
    exists|w: Seq<u8>| words.contains(w) && p.is_prefix_of(w)
}

/// A write-once set of words, answering exact and prefix queries.
pub struct Dictionary {
    trie: PatriciaSet,
}

impl Dictionary {
    /// The words indexed.
    pub closed spec fn words(&self) -> Set<Seq<u8>> {
        trie_words(self.trie)
    }

    /// The empty word is never indexed.
    pub open spec fn wf(&self) -> bool {
        !self.words().contains(Seq::<u8>::empty())
    }

    pub fn new() -> (r: Dictionary)
        ensures
            r.words() == Set::<Seq<u8>>::empty(),
            r.wf(),
    {
        Dictionary { trie: trie_new() }
    }

    /// Adds a word; the empty word is ignored.
    pub fn insert(&mut self, w: &[u8])
        requires
            old(self).wf(),
        ensures
            final(self).wf(),
            w@.len() == 0 ==> final(self).words() == old(self).words(),
            w@.len() > 0 ==> final(self).words() == old(self).words().insert(w@),
    {
        if w.len() > 0 {
            trie_insert(&mut self.trie, w);
        }
    }

    /// Exact membership.
    pub fn contains(&self, w: &[u8]) -> (r: bool)
        ensures
            r == self.words().contains(w@),
    {
        trie_contains(&self.trie, w)
    }

    /// Whether `p` equals or prefixes some indexed word.
    pub fn has_prefix(&self, p: &[u8]) -> (r: bool)
        ensures
            r == prefixes_some(self.words(), p@),
    {
        trie_has_prefix(&self.trie, p)
    }
}

/// The canonical decomposition (NFD) of a text.
pub uninterp spec fn nfd_of(s: Seq<char>) -> Seq<char>;

/// Relies on `UnicodeNormalization::nfd`: the characters of the canonical
/// decomposition of `s`, which depend on `s` alone.
#[verifier::external_body]
fn decompose(s: &str) -> (r: Vec<char>)
    ensures
        r@ == nfd_of(s@),
{
    s.nfd().collect()
}

/// A line of a word list as indexed: its ASCII characters, lower-cased
/// (after decomposition, which splits an accented letter into the letter
/// and a non-ASCII mark).
pub open spec fn fold_line(line: Seq<char>) -> Seq<u8>
    decreases line.len(),
{
    if line.len() == 0 {
        Seq::empty()
    } else if (line.last() as u32) < 128 {
        fold_line(line.drop_last()).push(lower_byte((line.last() as u32) as u8))
    } else {
        fold_line(line.drop_last())
    }
}

/// A folded line holds ASCII bytes only, none of them an upper-case letter.
pub proof fn lemma_fold_line_lower_ascii(line: Seq<char>)
    ensures
        forall|i: int|
            0 <= i < fold_line(line).len() ==> #[trigger] fold_line(line)[i] < 128 && !(65
                <= fold_line(line)[i] <= 90),
    decreases line.len(),
{
    if line.len() > 0 {
        lemma_fold_line_lower_ascii(line.drop_last());
        let prev = fold_line(line.drop_last());
        let x = line.last() as u32;
        if x < 128 {
            let b = x as u8;
            assert(b as u32 == x);
            assert(lower_byte(b) < 128 && !(65 <= lower_byte(b) <= 90));
            assert forall|i: int| 0 <= i < fold_line(line).len() implies #[trigger] fold_line(
                line,
            )[i] < 128 && !(65 <= fold_line(line)[i] <= 90) by {
                if i < prev.len() {
                    assert(fold_line(line)[i] == prev[i]);
                }
            }
        }
    }
}

/// `text[a..b]` is a whole line, ended by a newline or by the end of the text.
pub open spec fn complete_line(text: Seq<char>, a: int, b: int) -> bool {
    &&& 0 <= a <= b <= text.len()
    &&& (b == text.len() || text[b] == '\n')
    &&& (a == 0 || text[a - 1] == '\n')
    &&& forall|k: int| a <= k < b ==> text[k] != '\n'
}

/// The words of a word list: each line, folded, unless folding leaves
/// nothing.
pub open spec fn list_words(text: Seq<char>) -> Set<Seq<u8>> {
    Set::new(
        |w: Seq<u8>|
            w.len() > 0 && exists|a: int, b: int|
                complete_line(text, a, b) && w == fold_line(text.subrange(a, b)),
    )
}

/// The lines seen before position `i`.
spec fn words_before(text: Seq<char>, i: int) -> Set<Seq<u8>> {
    Set::new(
        |w: Seq<u8>|
            w.len() > 0 && exists|a: int, b: int|
                complete_line(text, a, b) && b < i && w == fold_line(text.subrange(a, b)),
    )
}

/// Builds the dictionary of a newline-separated word list: each line is
/// decomposed, stripped of what is not ASCII and lower-cased. A last line
/// needs no newline after it.
pub fn trie_from_dict(dict: &str) -> (r: Dictionary)
    ensures
        r.wf(),
        r.words() == list_words(nfd_of(dict@)),
{
    let chars = decompose(dict);
    let ghost text = chars@;
    let mut d = Dictionary::new();
    let mut word: Vec<u8> = Vec::new();
    let ghost mut start: int = 0;
    let mut i: usize = 0;
    assert(d.words() =~= words_before(text, 0));
    while i < chars.len()
        invariant
            text == chars@,
            i <= text.len(),
            0 <= start <= i,
            start == 0 || text[start - 1] == '\n',
            forall|k: int| start <= k < i ==> text[k] != '\n',
            word@ == fold_line(text.subrange(start, i as int)),
            d.wf(),
            d.words() == words_before(text, i as int),
        decreases chars.len() - i,
    {
        let c = chars[i];
        assert(text.subrange(start, i + 1).drop_last() =~= text.subrange(start, i as int));
        if c == '\n' {
            let ghost before = d.words();
            d.insert(word.as_slice());
            proof {
                let w0 = fold_line(text.subrange(start, i as int));
                assert(complete_line(text, start, i as int));
                assert forall|w: Seq<u8>| #[trigger] d.words().contains(w) == words_before(
                    text,
                    i + 1,
                ).contains(w) by {
                    if words_before(text, i + 1).contains(w) {
                        let (a, b) = choose|a: int, b: int|
                            complete_line(text, a, b) && b < i + 1 && w == fold_line(
                                text.subrange(a, b),
                            );
                        if b == i {
                            if a < start {
                                assert(text[start - 1] == '\n');
                            }
                            if a > start {
                                assert(text[a - 1] == '\n');
                            }
                        }
                    }
                }
                assert(d.words() =~= words_before(text, i + 1));
            }
            word = Vec::new();
            proof {
                start = i + 1;
                assert(text.subrange(start, i + 1) =~= Seq::<char>::empty());
            }
        } else {
            if (c as u32) < 128 {
                let b = (c as u32) as u8;
                let l = if 65 <= b && b <= 90 {
                    b + 32
                } else {
                    b
                };
                word.push(l);
            }
            proof {
                assert forall|w: Seq<u8>| #[trigger] d.words().contains(w) == words_before(
                    text,
                    i + 1,
                ).contains(w) by {
                    if words_before(text, i + 1).contains(w) {
                        let (a, b) = choose|a: int, b: int|
                            complete_line(text, a, b) && b < i + 1 && w == fold_line(
                                text.subrange(a, b),
                            );
                        assert(b != i);
                    }
                }
                assert(d.words() =~= words_before(text, i + 1));
            }
        }
        i = i + 1;
    }
    let ghost before = d.words();
    d.insert(word.as_slice());
    proof {
        assert(text.subrange(start, i as int) =~= text.subrange(start, text.len() as int));
        assert(complete_line(text, start, i as int));
        assert forall|w: Seq<u8>| #[trigger] d.words().contains(w) == list_words(text).contains(w) by {
            if list_words(text).contains(w) {
                let (a, b) = choose|a: int, b: int|
                    complete_line(text, a, b) && w == fold_line(text.subrange(a, b));
                if b < i {
                    assert(words_before(text, i as int).contains(w));
                } else {
                    if a < start {
                        assert(text[start - 1] == '\n');
                    }
                    if a > start {
                        assert(text[a - 1] == '\n');
                    }
                }
            }
            if words_before(text, i as int).contains(w) {
                let (a, b) = choose|a: int, b: int|
                    complete_line(text, a, b) && b < i && w == fold_line(text.subrange(a, b));
                assert(list_words(text).contains(w));
            }
        }
        assert(d.words() =~= list_words(text));
    }
    d
}

} // verus!
