use semchunk_rs::{Chunker, SpaceTokenCounter};

#[test]
fn test_merge_splits_simple() {
    let chunker = Chunker::new(2, SpaceTokenCounter);
    let splits = vec!["Hello", "World", "Goodbye", "World"];
    let separator = " ";
    let (split_idx, merged) = chunker.merge_splits(&splits, separator);
    assert_eq!(split_idx, 2);
    assert_eq!(merged, "Hello World");

    let (split_idx, merged) = chunker.merge_splits(splits.get(split_idx..).unwrap(), separator);
    assert_eq!(split_idx, 2);
    assert_eq!(merged, "Goodbye World");
}

#[test]
fn test_merge_splits_uneven() {
    let chunker = Chunker::new(4, SpaceTokenCounter);
    let splits = vec![
        "The", "quick", "brown", "fox", "jumps", "over", "the", "lazy", "dog",
    ]; // 9 tokens
    let separator = " ";
    let (split_idx, merged) = chunker.merge_splits(&splits, separator);
    assert_eq!(split_idx, 4);
    assert_eq!(merged, "The quick brown fox");

    let (split_idx_2, merged) = chunker.merge_splits(splits.get(split_idx..).unwrap(), separator);
    assert_eq!(split_idx_2, 4);
    assert_eq!(merged, "jumps over the lazy");

    let (split_idx_3, merged) =
        chunker.merge_splits(splits.get(split_idx + split_idx_2..).unwrap(), separator);
    assert_eq!(split_idx_3, 1);
    assert_eq!(merged, "dog");
}
