use semchunk_rs::{CharTokenCounter, Chunker, SpaceTokenCounter, Splitter, TokenCounter};

#[test]
fn chunk_end_to_end_word_budget() {
    let chunker = Chunker::new(4, SpaceTokenCounter);
    let text = "The quick brown fox jumps over the lazy dog.";
    let chunks = chunker.chunk(text);
    assert_eq!(
        chunks,
        vec!["The quick brown fox", "jumps over the lazy", "dog."]
    );
}

#[test]
fn chunk_is_deterministic_across_calls() {
    let chunker = Chunker::new(4, SpaceTokenCounter);
    let text = "The quick brown fox jumps over the lazy dog.";
    assert_eq!(chunker.chunk(text), chunker.chunk(text));
}

#[test]
fn chunk_empty_text_gives_no_chunks() {
    let chunker = Chunker::new(3, SpaceTokenCounter);
    let chunks = chunker.chunk("");
    assert_eq!(chunks, Vec::<String>::new());
}

#[test]
fn chunk_reattaches_punctuation_within_budget() {
    // No whitespace occurs, so the text splits on '!'; each boundary
    // separator is appended back to the chunk before it, and the
    // concatenation restores the text exactly.
    let chunker = Chunker::new(3, CharTokenCounter);
    let text = "ab!cd!ef";
    let chunks = chunker.chunk(text);
    assert_eq!(chunks, vec!["ab!", "cd!", "ef"]);
    assert_eq!(chunks.concat(), text);
}

#[test]
fn chunk_emits_separator_alone_when_it_cannot_attach() {
    // Appending '!' to "ab" would exceed a budget of two characters, so the
    // separator becomes a chunk of its own and nothing is lost.
    let chunker = Chunker::new(2, CharTokenCounter);
    let text = "ab!cd";
    let chunks = chunker.chunk(text);
    assert_eq!(chunks, vec!["ab", "!", "cd"]);
    assert_eq!(chunks.concat(), text);
}

#[test]
fn chunk_character_split_respects_budget() {
    // No separator occurs at all, so the text decomposes into characters and
    // the merge packs them back up to the budget.
    let chunker = Chunker::new(2, CharTokenCounter);
    let chunks = chunker.chunk("abcd");
    assert_eq!(chunks, vec!["ab", "cd"]);
}

#[test]
fn chunk_recurses_into_oversized_spans() {
    // "abc" alone exceeds a two-character budget, so the chunker recurses
    // into it character by character; the '!' boundary still attaches to the
    // chunk before it.
    let chunker = Chunker::new(2, CharTokenCounter);
    let chunks = chunker.chunk("abc!de");
    assert_eq!(chunks, vec!["ab", "c!", "de"]);
}

#[test]
fn chunk_keeps_every_chunk_within_budget() {
    let chunk_size = 3;
    let counter = SpaceTokenCounter;
    let chunker = Chunker::new(chunk_size, SpaceTokenCounter);
    let text = "one two three four five six seven eight nine ten eleven twelve";
    let chunks = chunker.chunk(text);
    assert!(!chunks.is_empty());
    for c in &chunks {
        assert!(counter.count(c) <= chunk_size || c.chars().count() == 1);
    }
}

#[test]
fn chunk_splits_on_longest_newline_run_first() {
    // The double newline outranks the single one, so the budget boundary
    // falls between the two paragraphs, not inside one.
    let chunker = Chunker::new(2, SpaceTokenCounter);
    let chunks = chunker.chunk("one two\n\nthree four\n<EOF>");
    assert_eq!(chunks, vec!["one two", "three four\n<EOF>"]);
}

#[test]
fn chunker_accepts_a_replacement_splitter() {
    let chunker = Chunker::new(4, SpaceTokenCounter).splitter(Splitter::default());
    let chunks = chunker.chunk("one two three four five");
    assert_eq!(chunks, vec!["one two three four", "five"]);
}

#[test]
fn merge_matches_linear_probe() {
    // The adaptive estimate inside merge_splits must not change the outcome:
    // probing every prefix length in turn selects the same consumed count.
    let chunk_size = 5;
    let counter = SpaceTokenCounter;
    let chunker = Chunker::new(chunk_size, SpaceTokenCounter);
    let splits = vec!["alpha", "b", "gamma", "dd", "e", "zeta", "eta", "th", "i"];
    let separator = " ";
    let (consumed, merged) = chunker.merge_splits(&splits, separator);

    let mut probe: usize = 0;
    for k in 1..=splits.len() {
        if counter.count(&splits[..k].join(separator)) <= chunk_size {
            probe = k;
        }
    }
    assert_eq!(consumed, probe);
    assert_eq!(merged, splits[..consumed].join(separator));
}
