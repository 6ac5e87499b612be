use semchunk_rs::Splitter;

#[test]
fn test_whitespace_split() {
    let splitter = Splitter::default();
    let text = "Hello, World!";
    let (separator, separator_is_whitespace, split_text) = splitter.split_text(text);
    assert_eq!(separator, " ");
    assert!(separator_is_whitespace);
    assert_eq!(split_text, ["Hello,", "World!"]);

    let text = "Hello, World!\tGoodbye, World!";
    let (separator, separator_is_whitespace, split_text) = splitter.split_text(text);
    assert_eq!(separator, "\t");
    assert!(separator_is_whitespace);
    assert_eq!(split_text, ["Hello, World!", "Goodbye, World!"]);

    let text = "Hello, World!\nGoodbye, World!";
    let (separator, separator_is_whitespace, split_text) = splitter.split_text(text);
    assert_eq!(separator, "\n");
    assert!(separator_is_whitespace);
    assert_eq!(split_text, ["Hello, World!", "Goodbye, World!"]);

    // Prioritize \n\n over \n
    let text = "Hello, World!\n\nGoodbye, World!\n<EOF>";
    let (separator, separator_is_whitespace, split_text) = splitter.split_text(text);
    assert_eq!(separator, "\n\n");
    assert!(separator_is_whitespace);
    assert_eq!(split_text, ["Hello, World!", "Goodbye, World!\n<EOF>"]);
}

#[test]
fn test_simple_semantic_chars_split() {
    // Prioritize ! over ,
    let splitter = Splitter::default();
    let text = "Hello,World!";
    let (separator, separator_is_whitespace, split_text) = splitter.split_text(text);
    assert_eq!(separator, "!");
    assert!(!separator_is_whitespace);
    assert_eq!(split_text, ["Hello,World", ""]);

    // Test with multiple separators
    let text = "Hello,_World!_Goodbye,_World!";
    let (separator, separator_is_whitespace, split_text) = splitter.split_text(text);
    assert_eq!(separator, "!");
    assert!(!separator_is_whitespace);
    assert_eq!(split_text, ["Hello,_World", "_Goodbye,_World", ""]);
}

#[test]
fn test_no_match_split() {
    let splitter = Splitter::default();
    let text = "Hello_World";
    let (separator, separator_is_whitespace, split_text) = splitter.split_text(text);
    assert_eq!(separator, "");
    assert!(separator_is_whitespace);
    assert_eq!(
        split_text,
        ["H", "e", "l", "l", "o", "_", "W", "o", "r", "l", "d"]
    );
}
