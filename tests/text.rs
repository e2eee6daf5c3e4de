use os_kernel::text::{is_whitespace, CodeGenerator, StringProcessor};

#[test]
fn test_word_count() {
    let processor = StringProcessor::new("Hello world from Rust".to_string());
    assert_eq!(processor.count_words(), 4);
}

#[test]
fn test_line_count() {
    let processor = StringProcessor::new("Line 1\nLine 2\nLine 3".to_string());
    assert_eq!(processor.count_lines(), 3);
}

#[test]
fn test_uppercase() {
    let mut processor = StringProcessor::new("hello world".to_string());
    processor.to_uppercase();
    assert_eq!(processor.content, "HELLO WORLD");
}

#[test]
fn counts_on_edges() {
    let p = StringProcessor::new(String::new());
    assert_eq!(p.count_words(), 0);
    assert_eq!(p.count_lines(), 0);
    assert_eq!(p.count_chars(), 0);
    let p = StringProcessor::new("  a\t\tb \u{3000}c\n\nd\n".to_string());
    assert_eq!(p.count_words(), 4);
    assert_eq!(p.count_lines(), 3);
    assert_eq!(p.count_chars(), 13);
    let p = StringProcessor::new("héllo wörld".to_string());
    assert_eq!(p.count_chars(), 11);
}

#[test]
fn rewrites_text() {
    let mut p = StringProcessor::new("Ab Cd".to_string());
    p.to_lowercase();
    assert_eq!(p.content, "ab cd");
    p.reverse();
    assert_eq!(p.content, "dc ba");
}

#[test]
fn whitespace_matches_std() {
    for c in ['\t', '\n', ' ', '\u{85}', '\u{a0}', '\u{2003}', '\u{3000}', 'a', '_', '\u{200b}'] {
        assert_eq!(is_whitespace(c), c.is_whitespace());
    }
}

#[test]
fn pascal_and_snake_case() {
    assert_eq!(CodeGenerator::to_pascal_case("server_config"), "ServerConfig");
    assert_eq!(CodeGenerator::to_pascal_case("__a__b"), "AB");
    assert_eq!(CodeGenerator::to_pascal_case("ßtraße"), "Straße");
    assert_eq!(CodeGenerator::to_pascal_case(""), "");
    assert_eq!(CodeGenerator::to_snake_case("keep_me"), "keep_me");
}

#[test]
fn removes_extra_whitespace() {
    let mut p = StringProcessor::new("  hello \t\n world  again ".to_string());
    p.remove_whitespace();
    assert_eq!(p.content, "hello world again");
    let mut q = StringProcessor::new(" \n ".to_string());
    q.remove_whitespace();
    assert_eq!(q.content, "");
}
