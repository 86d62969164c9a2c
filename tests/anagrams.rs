use anagramme::dictionary::{trie_from_dict, Dictionary};
use anagramme::input::{ascii_lower, make_input_vec};
use anagramme::rank::{rank_sentences, render_line, render_lines};
use anagramme::search::{anagrams, find_anagrams, max_boundaries, ResultSet};
use anagramme::words::{bytes_eq, bytes_le, compute_hash, get_sentence, last_word, sort_words};
use std::collections::hash_map::DefaultHasher;
use std::hash::Hasher;

fn words_of(list: &[&str]) -> Vec<Vec<u8>> {
    list.iter().map(|w| w.as_bytes().to_vec()).collect()
}

fn lines(results: &ResultSet, hint: &str) -> Vec<String> {
    let ranked = rank_sentences(results);
    render_lines(&ranked, hint.as_bytes())
        .into_iter()
        .map(|l| String::from_utf8(l).unwrap())
        .collect()
}

fn search(dict_text: &str, input: &str, hint: &str) -> Vec<String> {
    let dict = trie_from_dict(dict_text);
    let letters = make_input_vec(&ascii_lower(input.as_bytes()), &ascii_lower(hint.as_bytes()));
    let results = find_anagrams(&letters, &dict);
    lines(&results, hint)
}

fn sorted_letters(s: &str) -> Vec<u8> {
    let mut v: Vec<u8> = s.bytes().filter(|b| *b != b' ').collect();
    v.sort();
    v
}

#[test]
fn scenario_two_words_from_nichechat() {
    let out = search("chat\nchien\nniche\n", "nichechat", "");
    assert!(out.contains(&"chat niche".to_string()));
    assert!(out.contains(&"chat chien".to_string()));
    assert_eq!(out.len(), 2);
    for line in &out {
        assert_eq!(sorted_letters(line), sorted_letters("nichechat"));
    }
}

#[test]
fn scenario_hint_prefixes_lines() {
    let out = search("chat\nchien\nniche\n", "chatniche", "chat");
    assert!(out.contains(&"chat niche".to_string()));
    assert!(out.contains(&"chat chien".to_string()));
    assert_eq!(out.len(), 2);
}

#[test]
fn scenario_hint_takes_every_letter() {
    let out = search("chat\nchien\nniche\n", "chat", "chat");
    assert!(out.is_empty());
    let out = search("chat\n", "", "");
    assert!(out.is_empty());
}

#[test]
fn scenario_single_word_only() {
    let out = search("listen\nlist\n", "silent", "");
    assert_eq!(out, vec!["listen".to_string()]);
}

#[test]
fn no_anagram_gives_no_line() {
    let out = search("chat\n", "chien", "");
    assert!(out.is_empty());
}

#[test]
fn words_are_dictionary_words_and_letters_kept() {
    let dict_text = "a\nab\nb\nba\nbab\n";
    let dict = trie_from_dict(dict_text);
    let results = find_anagrams(b"abab", &dict);
    assert!(results.len() > 0);
    for i in 0..results.len() {
        let s = results.get(i);
        let mut all: Vec<u8> = Vec::new();
        for w in s {
            assert!(dict.contains(w));
            all.extend_from_slice(w);
        }
        all.sort();
        assert_eq!(all, b"aabb".to_vec());
        assert!(s.len() <= max_boundaries(4) + 1);
    }
}

#[test]
fn no_two_sentences_are_permutations() {
    let dict = trie_from_dict("a\nab\nb\nba\n");
    let results = find_anagrams(b"abab", &dict);
    for i in 0..results.len() {
        for j in (i + 1)..results.len() {
            let mut x = results.get(i).clone();
            let mut y = results.get(j).clone();
            x.sort();
            y.sort();
            assert_ne!(x, y);
        }
    }
}

#[test]
fn boundary_cap_limits_word_count() {
    let dict = trie_from_dict("a\n");
    let mut out = ResultSet::new();
    anagrams(1, b"aa", &dict, &mut out);
    assert_eq!(out.len(), 1);
    assert_eq!(out.get(0), &words_of(&["a", "a"]));
    let mut out = ResultSet::new();
    anagrams(1, b"aaa", &dict, &mut out);
    assert_eq!(out.len(), 0);
    let mut out = ResultSet::new();
    anagrams(2, b"aaa", &dict, &mut out);
    assert_eq!(out.len(), 1);
}

#[test]
fn lines_ranked_by_word_count() {
    let out = search("a\nab\nb\nba\nabab\n", "abab", "");
    assert!(out.len() >= 2);
    for k in 1..out.len() {
        let before = out[k - 1].matches(' ').count();
        let after = out[k].matches(' ').count();
        assert!(before >= after);
    }
}

#[test]
fn max_boundaries_values() {
    assert_eq!(max_boundaries(0), 1);
    assert_eq!(max_boundaries(5), 1);
    assert_eq!(max_boundaries(6), 2);
    assert_eq!(max_boundaries(13), 3);
}

#[test]
fn dictionary_folds_accents_and_case() {
    let dict = trie_from_dict("Été\nNiche\n\nlast");
    assert!(dict.contains(b"ete"));
    assert!(dict.contains(b"niche"));
    assert!(!dict.contains(b""));
    assert!(dict.contains(b"last"));
    assert!(dict.has_prefix(b"nic"));
    assert!(dict.has_prefix(b"niche"));
    assert!(!dict.has_prefix(b"nichee"));
    assert!(!dict.has_prefix(b"x"));
}

#[test]
fn dictionary_insert_and_query() {
    let mut dict = Dictionary::new();
    assert!(!dict.has_prefix(b""));
    dict.insert(b"");
    assert!(!dict.contains(b""));
    dict.insert(b"word");
    assert!(dict.contains(b"word"));
    assert!(!dict.contains(b"wor"));
    assert!(dict.has_prefix(b"wor"));
    assert!(dict.has_prefix(b""));
}

#[test]
fn input_drops_spaces_and_hint_letters() {
    assert_eq!(make_input_vec(b"chat niche", b"chat"), b"niche".to_vec());
    assert_eq!(make_input_vec(b"aab", b"a"), b"ab".to_vec());
    assert_eq!(make_input_vec(b"abc", b"xyz"), b"abc".to_vec());
    assert_eq!(make_input_vec(b"abc", b"aa"), b"bc".to_vec());
    assert_eq!(make_input_vec(b"", b"a"), Vec::<u8>::new());
    assert_eq!(make_input_vec(b"a b", b""), b"ab".to_vec());
}

#[test]
fn lower_casing_is_ascii_only() {
    assert_eq!(ascii_lower(b"NiChE 9z"), b"niche 9z".to_vec());
}

#[test]
fn last_word_after_last_boundary() {
    assert_eq!(last_word(b"chatniche", &[4]), b"niche".to_vec());
    assert_eq!(last_word(b"chat", &[]), b"chat".to_vec());
    assert_eq!(last_word(b"chat", &[4]), Vec::<u8>::new());
}

#[test]
fn sentence_split_and_sorted() {
    assert_eq!(get_sentence(b"nichechat", &[5]), words_of(&["chat", "niche"]));
    assert_eq!(get_sentence(b"abc", &[]), words_of(&["abc"]));
    assert_eq!(get_sentence(b"bab", &[1, 2]), words_of(&["a", "b", "b"]));
}

#[test]
fn sort_is_alphabetical() {
    let v = sort_words(words_of(&["b", "ab", "a", "abc", "b"]));
    assert_eq!(v, words_of(&["a", "ab", "abc", "b", "b"]));
    assert!(bytes_le(b"ab", b"abc"));
    assert!(!bytes_le(b"b", b"abc"));
    assert!(bytes_le(b"", b""));
    assert!(bytes_eq(b"ab", b"ab"));
    assert!(!bytes_eq(b"ab", b"abc"));
}

#[test]
fn hash_feeds_each_word_to_default_hasher() {
    let words = words_of(&["chat", "niche"]);
    let mut h = DefaultHasher::new();
    h.write(b"chat");
    h.write(b"niche");
    assert_eq!(compute_hash(&words), h.finish());
    assert_eq!(compute_hash(&words), compute_hash(&words_of(&["chat", "niche"])));
}

#[test]
fn result_set_keeps_one_copy() {
    let mut out = ResultSet::new();
    out.add(words_of(&["chat", "niche"]));
    out.add(words_of(&["chat", "niche"]));
    out.add(words_of(&["chat", "chien"]));
    assert_eq!(out.len(), 2);
}

#[test]
fn render_with_and_without_hint() {
    let s = words_of(&["chat", "niche"]);
    assert_eq!(render_line(&s, b""), b"chat niche".to_vec());
    assert_eq!(render_line(&s, b"le"), b"le chat niche".to_vec());
    assert_eq!(render_line(&Vec::new(), b""), Vec::<u8>::new());
}

#[test]
fn rank_puts_longer_sentences_first() {
    let mut out = ResultSet::new();
    out.add(words_of(&["abab"]));
    out.add(words_of(&["a", "b", "ba"]));
    out.add(words_of(&["ab", "ab"]));
    let ranked = rank_sentences(&out);
    let counts: Vec<usize> = ranked.iter().map(|s| s.len()).collect();
    assert_eq!(counts, vec![3, 2, 1]);
}

#[test]
fn repeated_lines_are_left_out() {
    let sentences = vec![words_of(&["a b", "c"]), words_of(&["a", "b c"]), words_of(&["d"])];
    let out = render_lines(&sentences, b"");
    assert_eq!(out, vec![b"a b c".to_vec(), b"d".to_vec()]);
    let out = render_lines(&sentences, b"h");
    assert_eq!(out, vec![b"h a b c".to_vec(), b"h d".to_vec()]);
}

#[test]
fn last_line_without_newline_is_indexed() {
    let dict = trie_from_dict("chat\nniche");
    assert!(dict.contains(b"chat"));
    assert!(dict.contains(b"niche"));
    let dict = trie_from_dict("chat\nniche\n");
    assert!(dict.contains(b"niche"));
    assert!(!dict.contains(b""));
}
