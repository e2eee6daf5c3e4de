use os_kernel::files::FileStats;

#[test]
fn test_file_stats() {
    let content = "Hello world\nThis is a test\n\nAnother line";
    let stats = FileStats::new("test.txt".to_string(), content);

    assert_eq!(stats.lines, 4);
    assert_eq!(stats.words, content.split_whitespace().count());
    assert_eq!(stats.words, 8);
    assert_eq!(stats.empty_lines, 1);
    assert_eq!(stats.file_type, "txt");
}

#[test]
fn file_stats_details() {
    let content = "héllo\r\n  \t\nfoo\nbar\n\r\nbaz\r";
    let stats = FileStats::new("notes.md".to_string(), content);
    let lines: Vec<&str> = content.lines().collect();
    assert_eq!(stats.lines, lines.len());
    assert_eq!(stats.lines, 6);
    assert_eq!(stats.empty_lines, lines.iter().filter(|l| l.trim().is_empty()).count());
    assert_eq!(stats.longest_line, lines.iter().map(|l| l.len()).max().unwrap_or(0));
    assert_eq!(stats.longest_line, 6);
    assert_eq!(stats.characters, content.chars().count());
    assert_eq!(stats.size_bytes, content.len() as u64);
    assert_eq!(stats.file_type, "md");
    assert_eq!(stats.filename, "notes.md");

    let none = FileStats::new("Makefile".to_string(), "");
    assert_eq!(none.file_type, "unknown");
    assert_eq!(none.lines, 0);
    assert_eq!(none.longest_line, 0);
    assert_eq!(none.words, 0);
}
