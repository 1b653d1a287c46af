use bitrag::corpus::corpus_lines;
use bitrag::eval::shorten;
use bitrag::ngram::{gram_set, ngrams};
use bitrag::vocab::GramIndex;

#[test]
fn ngrams_of_a_word() {
    assert_eq!(ngrams("hello", 2), vec!["he", "el", "ll", "lo"]);
    assert_eq!(ngrams("hello", 5), vec!["hello"]);
    assert_eq!(ngrams("ab", 3), Vec::<String>::new());
}

#[test]
fn ngrams_count_characters_not_bytes() {
    assert_eq!(ngrams("あいう", 2), vec!["あい", "いう"]);
}

#[test]
fn gram_set_is_sorted_and_unique() {
    assert_eq!(gram_set("abab"), vec!["ab", "aba", "abab", "ba", "bab"]);
    assert_eq!(gram_set("a"), Vec::<String>::new());
    assert_eq!(gram_set("aaaa"), vec!["aa", "aaa", "aaaa"]);
}

#[test]
fn shorten_takes_leading_characters() {
    assert_eq!(shorten("héllo", 2), "hé");
    assert_eq!(shorten("ab", 5), "ab");
    assert_eq!(shorten("abc", 0), "");
}

#[test]
fn corpus_lines_drop_empty_lines() {
    assert_eq!(corpus_lines("a\r\nb\n\n c\n"), vec!["a", "b", " c"]);
    assert_eq!(corpus_lines("x"), vec!["x"]);
    assert_eq!(corpus_lines(""), Vec::<String>::new());
    assert_eq!(corpus_lines("\r\n\n"), Vec::<String>::new());
}

#[test]
fn corpus_lines_keep_a_final_carriage_return() {
    assert_eq!(corpus_lines("foo\r\nbar\n\nbaz\r"), vec!["foo", "bar", "baz\r"]);
}

#[test]
fn vocabulary_of_gram_lists() {
    let lists = vec![gram_set("abab"), gram_set("ba")];
    let v = GramIndex::build(&lists);
    assert_eq!(v.terms(), &vec!["ab", "aba", "abab", "ba", "bab"]);
    assert_eq!(v.df(), &vec![1, 1, 1, 2, 1]);
    assert_eq!(v.len(), 5);
    assert_eq!(v.nw(), 1);
    assert_eq!(v.index_of("bab"), Some(4));
    assert_eq!(v.index_of("zz"), None);
    let d = v.to_docbits(&["ba".to_string(), "zz".to_string()]);
    assert_eq!(d.nw, 1);
    assert_eq!(d.words, vec![1u64 << 3]);
}

#[test]
fn empty_vocabulary() {
    let v = GramIndex::build(&[]);
    assert_eq!(v.len(), 0);
    assert_eq!(v.nw(), 0);
    assert_eq!(v.to_docbits(&["a".to_string()]).words, Vec::<u64>::new());
}
