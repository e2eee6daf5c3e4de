use os_kernel::word_count;

#[test]
fn counts_words() {
    let c = word_count("Hello hello world");
    assert_eq!(c.get("hello"), Some(&2usize));
    assert_eq!(c.get("world"), Some(&1usize));
}

#[test]
fn counts_words_across_whitespace_and_case() {
    let c = word_count("  The\tthe\nTHE  end ");
    assert_eq!(c.len(), 2);
    assert_eq!(c.get("the"), Some(&3usize));
    assert_eq!(c.get("end"), Some(&1usize));
    assert!(word_count("").is_empty());
    assert!(word_count(" \n\t ").is_empty());
}
