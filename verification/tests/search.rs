use patcherd::search::{
    find_all, find_exact, find_wildcard, replace_all, replace_at_positions, replace_exact_streaming,
    Pattern,
};

fn pat(bytes: &[u8]) -> Vec<Pattern> {
    bytes.iter().map(|&b| Pattern::Byte(b)).collect()
}

fn pat_wild(bytes: &[u8], wildcard: u8) -> Vec<Pattern> {
    bytes
        .iter()
        .map(|&b| {
            if b == wildcard {
                Pattern::Wildcard
            } else {
                Pattern::Byte(b)
            }
        })
        .collect()
}

#[test]
fn exact_single_match() {
    let haystack: Vec<u8> = (0..200).collect();
    assert_eq!(find_all(&haystack, &pat(&[42, 43, 44])), vec![42]);
}

#[test]
fn exact_multiple_matches() {
    let mut h = vec![0u8; 100];
    h[10..14].copy_from_slice(&[0xDE, 0xAD, 0xBE, 0xEF]);
    h[50..54].copy_from_slice(&[0xDE, 0xAD, 0xBE, 0xEF]);
    assert_eq!(find_all(&h, &pat(&[0xDE, 0xAD, 0xBE, 0xEF])), vec![10, 50]);
}

#[test]
fn exact_non_overlapping() {
    let data = vec![0xAA; 4];
    assert_eq!(find_all(&data, &pat(&[0xAA, 0xAA])), vec![0, 2]);
}

#[test]
fn wildcard_match() {
    let haystack: Vec<u8> = (0..200).collect();
    let needle = pat_wild(&[42, 0xFF, 44], 0xFF);
    assert_eq!(find_all(&haystack, &needle), vec![42]);
}

#[test]
fn wildcard_leading() {
    let haystack: Vec<u8> = (0..200).collect();
    let needle = pat_wild(&[0xFF, 0xFF, 44], 0xFF);
    assert_eq!(find_all(&haystack, &needle), vec![42]);
}

#[test]
fn no_match() {
    let data = vec![0u8; 100];
    assert!(find_all(&data, &pat(&[0xDE, 0xAD])).is_empty());
}

#[test]
fn empty_needle() {
    assert!(find_all(&[1, 2, 3], &[]).is_empty());
}

#[test]
fn replace_exact_works() {
    let mut data = vec![0u8; 20];
    data[5..9].copy_from_slice(&[0xDE, 0xAD, 0xBE, 0xEF]);
    let result = replace_all(
        &data,
        &pat(&[0xDE, 0xAD, 0xBE, 0xEF]),
        &[0x01, 0x02, 0x03, 0x04],
    );
    assert_eq!(&result[5..9], &[0x01, 0x02, 0x03, 0x04]);
    assert_eq!(result.len(), data.len());
}

#[test]
fn replace_wildcard_preserves_original() {
    let mut data = vec![0u8; 20];
    data[5..9].copy_from_slice(&[0xDE, 0xAD, 0xBE, 0xEF]);
    let needle = pat_wild(&[0xDE, 0xFF, 0xBE, 0xEF], 0xFF);
    let result = replace_all(&data, &needle, &[0x01, 0x02, 0x03, 0x04]);
    assert_eq!(&result[5..9], &[0x01, 0xAD, 0x03, 0x04]);
}

#[test]
fn replace_multiple() {
    let mut data = vec![0u8; 100];
    data[10..14].copy_from_slice(&[0xDE, 0xAD, 0xBE, 0xEF]);
    data[50..54].copy_from_slice(&[0xDE, 0xAD, 0xBE, 0xEF]);
    let result = replace_all(
        &data,
        &pat(&[0xDE, 0xAD, 0xBE, 0xEF]),
        &[0x01, 0x02, 0x03, 0x04],
    );
    assert_eq!(&result[10..14], &[0x01, 0x02, 0x03, 0x04]);
    assert_eq!(&result[50..54], &[0x01, 0x02, 0x03, 0x04]);
    assert_eq!(result.len(), data.len());
}

// ---------------------------------------------------------------------------
// Further cases
// ---------------------------------------------------------------------------

#[test]
fn pattern_matches_bytes() {
    assert!(Pattern::Byte(7).matches(&7));
    assert!(!Pattern::Byte(7).matches(&8));
    assert!(Pattern::Wildcard.matches(&0));
    assert!(Pattern::Wildcard.matches(&255));
}

#[test]
fn has_wildcards_detects_wildcard() {
    assert!(!Pattern::has_wildcards(&pat(&[1, 2, 3])));
    assert!(Pattern::has_wildcards(&pat_wild(&[1, 0xFF, 3], 0xFF)));
    assert!(!Pattern::has_wildcards(&[]));
}

#[test]
fn as_bytes_roundtrip() {
    assert_eq!(Pattern::as_bytes(&pat(&[9, 8, 7])), vec![9, 8, 7]);
    assert_eq!(Pattern::as_bytes(&[]), Vec::<u8>::new());
}

#[test]
fn haystack_shorter_than_needle() {
    assert!(find_all(&[1, 2], &pat(&[1, 2, 3])).is_empty());
    // even an all-wildcard needle is fine when the haystack is too short
    assert!(find_all(&[1, 2], &[Pattern::Wildcard, Pattern::Wildcard, Pattern::Wildcard]).is_empty());
}

#[test]
fn wildcard_non_overlapping_greedy() {
    // ?? AA over AA AA AA AA: leftmost match at 0 covers 0..2, next at 2.
    let data = vec![0xAA; 5];
    let needle = vec![Pattern::Wildcard, Pattern::Byte(0xAA)];
    assert_eq!(find_all(&data, &needle), vec![0, 2]);
}

#[test]
fn wildcard_trailing_and_edges() {
    let data = vec![1, 2, 3, 1, 9];
    let needle = vec![Pattern::Byte(1), Pattern::Wildcard];
    assert_eq!(find_all(&data, &needle), vec![0, 3]);
    let needle = vec![Pattern::Wildcard, Pattern::Byte(9)];
    assert_eq!(find_all(&data, &needle), vec![3]);
}

#[test]
fn exact_match_at_end_of_data() {
    let data = vec![0, 0, 0, 5, 6];
    assert_eq!(find_all(&data, &pat(&[5, 6])), vec![3]);
}

#[test]
fn replace_all_without_match_keeps_data() {
    let data = vec![1, 2, 3, 4];
    assert_eq!(replace_all(&data, &pat(&[9, 9]), &[0, 0]), data);
    assert_eq!(replace_all(&data, &[], &[]), data);
    assert_eq!(replace_all(&[1], &pat(&[1, 2]), &[0, 0]), vec![1]);
}

#[test]
fn replace_all_overlapping_candidates() {
    let data = vec![0xAA; 5];
    let result = replace_all(&data, &pat(&[0xAA, 0xAA]), &[1, 2]);
    assert_eq!(result, vec![1, 2, 1, 2, 0xAA]);
}

#[test]
fn replace_wildcard_multiple() {
    let data = vec![7, 1, 7, 2, 7, 3];
    let needle = vec![Pattern::Byte(7), Pattern::Wildcard];
    let result = replace_all(&data, &needle, &[8, 0]);
    assert_eq!(result, vec![8, 1, 8, 2, 8, 3]);
}

#[test]
fn replace_at_positions_skips_overlaps() {
    let data = vec![0, 1, 2, 3, 4, 5];
    let find = pat(&[0, 0]);
    // position 1 overlaps the window at 0 and is skipped
    let result = replace_at_positions(&data, &[0, 1, 4], &find, &[9, 9]);
    assert_eq!(result, vec![9, 9, 2, 3, 9, 9]);
}

#[test]
fn replace_at_positions_empty_positions() {
    let data = vec![1, 2, 3];
    assert_eq!(replace_at_positions(&data, &[], &pat(&[1]), &[5]), data);
}

#[test]
fn replace_at_positions_wildcards_keep_bytes() {
    let data = vec![10, 20, 30, 40];
    let find = vec![Pattern::Wildcard, Pattern::Byte(0), Pattern::Wildcard];
    let result = replace_at_positions(&data, &[1], &find, &[1, 2, 3]);
    assert_eq!(result, vec![10, 20, 2, 40]);
}

#[test]
fn replace_at_positions_uses_whole_replacement_without_wildcards() {
    let data = vec![1, 2, 3, 4];
    let result = replace_at_positions(&data, &[1], &pat(&[2]), &[7, 7, 7]);
    assert_eq!(result, vec![1, 7, 7, 7, 3, 4]);
}

#[test]
fn all_wildcard_needle_matches_every_window() {
    let data = [1u8, 2, 3, 4, 5];
    let needle = vec![Pattern::Wildcard, Pattern::Wildcard];
    assert_eq!(find_all(&data, &needle), vec![0, 2]);
    assert_eq!(find_all(&data, &[Pattern::Wildcard]), vec![0, 1, 2, 3, 4]);
    assert_eq!(replace_all(&data, &needle, &[9, 9]), data.to_vec());
}

#[test]
fn anchored_and_exact_searches_agree() {
    let data = [1u8, 2, 1, 2, 1, 2, 3];
    let needle = vec![Pattern::Byte(1), Pattern::Byte(2)];
    assert_eq!(find_wildcard(&data, &needle), find_exact(&data, &needle));
    assert_eq!(find_exact(&data, &needle), vec![0, 2, 4]);
    let streamed = replace_exact_streaming(&data, &needle, &[7, 8]);
    let positions = find_exact(&data, &needle);
    assert_eq!(streamed, replace_at_positions(&data, &positions, &needle, &[7, 8]));
    assert_eq!(streamed, vec![7, 8, 7, 8, 7, 8, 3]);
}
