use torrent_combine::chunk::{
    perform_byte_merge, perform_byte_merge_mmap, perform_byte_merge_mmap_with,
    perform_byte_merge_with, validate_sanity_check, validate_sanity_check_mmap,
    validate_sanity_check_mmap_with, validate_sanity_check_with, Stride, WordLayout, BUFFER_SIZE,
};
use torrent_combine::scan::{check_sanity_and_completes, MergeError, MergeOutcome, MergeScan};
use torrent_combine::words::{check_word_sanity, load_word, store_word};

fn merged_of(sources: &Vec<Vec<u8>>, use_mmap: bool) -> (Vec<u8>, Vec<bool>) {
    match check_sanity_and_completes(sources, use_mmap) {
        Ok(MergeOutcome::Merged { bytes, is_complete }) => (bytes, is_complete),
        other => panic!("Expected a merge, got {:?}", other),
    }
}

fn patterned(len: usize, step: usize, value: u8) -> Vec<u8> {
    let mut data = vec![0u8; len];
    let mut i = 0;
    while i < len {
        data[i] = value;
        i += step;
    }
    data
}

#[test]
fn test_check_word_sanity() {
    // Test identical words
    assert!(check_word_sanity(0x12345678, 0x12345678));

    // Test compatible words (one is subset of other)
    assert!(check_word_sanity(0x12340000, 0x12345678));
    assert!(check_word_sanity(0x00005678, 0x12345678));
    assert!(check_word_sanity(0x12005600, 0x12345678));

    // Test incompatible words (different non-zero bits)
    assert!(!check_word_sanity(0x12345678, 0x87654321));
    assert!(!check_word_sanity(0x12345678, 0x12345679));
}

#[test]
fn test_check_word_sanity_high_bytes() {
    assert!(check_word_sanity(0xff00_0000_0000_0000, 0xff00_0000_0000_00aa));
    assert!(!check_word_sanity(0xfe00_0000_0000_0000, 0xff00_0000_0000_0000));
    assert!(check_word_sanity(0, u64::MAX));
    assert!(!check_word_sanity(1, 0));
}

#[test]
fn test_load_and_store_word() {
    let bytes = vec![9u8, 1, 2, 3, 4, 5, 6, 7, 8, 9];
    let w = load_word(&bytes, 1);
    assert_eq!(w, 0x0807_0605_0403_0201);
    let mut out = vec![0xeeu8; 10];
    store_word(&mut out, 2, w);
    assert_eq!(out, vec![0xee, 0xee, 1, 2, 3, 4, 5, 6, 7, 8]);
}

#[test]
fn test_word_layout() {
    assert_eq!(WordLayout::for_span(0, 20, Stride::Words), WordLayout { head: 0, words: 2, tail: 4 });
    assert_eq!(WordLayout::for_span(3, 20, Stride::Words), WordLayout { head: 5, words: 1, tail: 7 });
    assert_eq!(WordLayout::for_span(3, 2, Stride::Words), WordLayout { head: 2, words: 0, tail: 0 });
    assert_eq!(WordLayout::for_span(8, 8, Stride::Words), WordLayout { head: 0, words: 1, tail: 0 });
    assert_eq!(WordLayout::for_span(3, 20, Stride::Bytes), WordLayout { head: 20, words: 0, tail: 0 });
    assert_eq!(WordLayout::for_span(0, 0, Stride::Words), WordLayout { head: 0, words: 0, tail: 0 });
}

#[test]
fn test_perform_byte_merge() {
    let buffer1 = vec![0x12, 0x34, 0x00, 0x56];
    let buffer2 = vec![0x00, 0x34, 0x78, 0x00];
    let buffers = vec![buffer1.clone(), buffer2.clone()];
    let mut or_chunk = vec![0u8; 4];

    perform_byte_merge(&buffers, &mut or_chunk);

    // Expected result: 0x12 | 0x00 = 0x12, 0x34 | 0x34 = 0x34, 0x00 | 0x78 = 0x78, 0x56 | 0x00 = 0x56
    assert_eq!(or_chunk, &[0x12, 0x34, 0x78, 0x56]);
}

#[test]
fn test_perform_byte_merge_mmap() {
    let file1: Vec<u8> = vec![0x12, 0x34, 0x00, 0x56];
    let file2: Vec<u8> = vec![0x00, 0x34, 0x78, 0x00];
    let maps: Vec<&[u8]> = vec![&file1, &file2];
    let mut or_chunk = vec![0u8; 4];

    perform_byte_merge_mmap(&maps, &mut or_chunk, 0, 4);

    assert_eq!(or_chunk, &[0x12, 0x34, 0x78, 0x56]);
}

#[test]
fn test_perform_byte_merge_mmap_at_offset() {
    let file1: Vec<u8> = (0..40u8).map(|i| if i % 2 == 0 { i } else { 0 }).collect();
    let file2: Vec<u8> = (0..40u8).map(|i| if i % 3 == 0 { i } else { 0 }).collect();
    let maps: Vec<&[u8]> = vec![&file1, &file2];
    let mut or_chunk = vec![0u8; 30];
    perform_byte_merge_mmap(&maps, &mut or_chunk, 5, 30);
    let expected: Vec<u8> = (5..35u8).map(|i| if i % 2 == 0 || i % 3 == 0 { i } else { 0 }).collect();
    assert_eq!(or_chunk, expected);
}

#[test]
fn test_validate_sanity_check() {
    let buffer1 = vec![0x12, 0x34, 0x00, 0x56];
    let buffer2 = vec![0x00, 0x34, 0x78, 0x00];
    let buffers = vec![buffer1, buffer2];
    let or_chunk = vec![0x12, 0x34, 0x78, 0x56];
    let mut is_complete = vec![true, true];

    let result = validate_sanity_check(&buffers, &or_chunk, &mut is_complete, 4);

    // Should pass validation
    assert!(result);
    // We expect at least one file to be incomplete since they have different bytes
    assert!(is_complete.iter().any(|&complete| !complete));
    assert_eq!(is_complete, vec![false, false]);
}

#[test]
fn test_validate_sanity_check_failure() {
    let buffer1 = vec![0x12, 0x34, 0x56, 0x78];
    let buffer2 = vec![0x87, 0x65, 0x43, 0x21];
    let buffers = vec![buffer1, buffer2];
    let or_chunk = vec![0x99, 0x79, 0x57, 0x79]; // OR of both buffers
    let mut is_complete = vec![true, true];

    let result = validate_sanity_check(&buffers, &or_chunk, &mut is_complete, 4);

    // Should fail validation due to incompatible bits
    assert!(!result);
    // The scan stops at the first source that does not fit.
    assert_eq!(is_complete, vec![false, true]);
}

#[test]
fn test_validate_sanity_check_mmap() {
    let file1: Vec<u8> = vec![0x12, 0x34, 0x00, 0x56];
    let file2: Vec<u8> = vec![0x00, 0x34, 0x78, 0x00];
    let maps: Vec<&[u8]> = vec![&file1, &file2];
    let or_chunk = vec![0x12, 0x34, 0x78, 0x56];
    let mut is_complete = vec![true, true];

    let result = validate_sanity_check_mmap(&maps, &or_chunk, &mut is_complete, 0, 4);

    assert!(result);
    assert!(is_complete.iter().any(|&complete| !complete));
}

#[test]
fn test_validate_sanity_check_mmap_failure() {
    let file1: Vec<u8> = vec![0x12, 0x34, 0x56, 0x78];
    let file2: Vec<u8> = vec![0x87, 0x65, 0x43, 0x21];
    let maps: Vec<&[u8]> = vec![&file1, &file2];
    let or_chunk = vec![0x99, 0x79, 0x57, 0x79];
    let mut is_complete = vec![true, true];

    let result = validate_sanity_check_mmap(&maps, &or_chunk, &mut is_complete, 0, 4);

    assert!(!result);
}

#[test]
fn test_validate_keeps_complete_sources() {
    let buffers = vec![vec![1u8, 2, 3, 4, 5, 6, 7, 8, 9], vec![1u8, 0, 3, 4, 0, 6, 7, 8, 0]];
    let or_chunk = vec![1u8, 2, 3, 4, 5, 6, 7, 8, 9];
    let mut is_complete = vec![true, true];
    assert!(validate_sanity_check(&buffers, &or_chunk, &mut is_complete, 9));
    assert_eq!(is_complete, vec![true, false]);
    // A flag that is down stays down.
    let mut is_complete = vec![false, true];
    assert!(validate_sanity_check(&buffers, &or_chunk, &mut is_complete, 9));
    assert_eq!(is_complete, vec![false, false]);
}

#[test]
fn test_word_and_byte_walks_agree() {
    let len = 61;
    let a = patterned(len, 3, 0x11);
    let b = patterned(len, 5, 0x11);
    let c = patterned(len, 7, 0x11);
    let buffers = vec![a.clone(), b.clone(), c.clone()];
    for stride in [Stride::Bytes, Stride::Words] {
        let mut or_chunk = vec![0u8; len];
        perform_byte_merge_with(&buffers, &mut or_chunk, stride);
        let expected: Vec<u8> = (0..len).map(|i| a[i] | b[i] | c[i]).collect();
        assert_eq!(or_chunk, expected);
        let mut flags = vec![true; 3];
        assert!(validate_sanity_check_with(&buffers, &or_chunk, &mut flags, len, stride));
        assert_eq!(flags, vec![false, false, false]);
    }
    let maps: Vec<&[u8]> = vec![&a, &b, &c];
    for stride in [Stride::Bytes, Stride::Words] {
        for offset in 0..9usize {
            let chunk = len - 9;
            let mut or_chunk = vec![0u8; chunk];
            perform_byte_merge_mmap_with(&maps, &mut or_chunk, offset, chunk, stride);
            let expected: Vec<u8> = (offset..offset + chunk).map(|i| a[i] | b[i] | c[i]).collect();
            assert_eq!(or_chunk, expected);
            let mut flags = vec![true; 3];
            assert!(validate_sanity_check_mmap_with(&maps, &or_chunk, &mut flags, offset, chunk, stride));
        }
    }
}

#[test]
fn test_word_and_byte_walks_agree_on_conflict() {
    for at in 0..40usize {
        let mut a = vec![0u8; 40];
        let mut b = vec![0u8; 40];
        a[at] = 0x12;
        b[at] = 0x13;
        let buffers = vec![a, b];
        for stride in [Stride::Bytes, Stride::Words] {
            let mut or_chunk = vec![0u8; 40];
            perform_byte_merge_with(&buffers, &mut or_chunk, stride);
            assert_eq!(or_chunk[at], 0x13);
            let mut flags = vec![true; 2];
            assert!(!validate_sanity_check_with(&buffers, &or_chunk, &mut flags, 40, stride));
            assert_eq!(flags, vec![false, true]);
        }
    }
}

#[test]
fn test_single_file() {
    let data = vec![1u8, 2, 3];
    let (bytes, is_complete) = merged_of(&vec![data.clone()], false);
    assert_eq!(is_complete, vec![true]);
    assert_eq!(bytes, data);
}

#[test]
fn test_size_mismatch() {
    let sources = vec![vec![1u8, 2, 3], vec![4u8, 5]];
    let res = check_sanity_and_completes(&sources, false);
    assert!(res.is_err());
    assert_eq!(res.err(), Some(MergeError::SizeMismatch { index: 1 }));
    let res = check_sanity_and_completes(&sources, true);
    assert_eq!(res.err(), Some(MergeError::SizeMismatch { index: 1 }));
}

#[test]
fn test_size_mismatch_names_first_odd_source() {
    let sources = vec![vec![1u8, 2, 3], vec![1u8, 2, 3], vec![4u8, 5], vec![4u8]];
    let res = check_sanity_and_completes(&sources, false);
    assert_eq!(res.err(), Some(MergeError::SizeMismatch { index: 2 }));
}

#[test]
fn test_sanity_fail() {
    let sources = vec![vec![1u8, 0], vec![2u8, 0]];
    let res = check_sanity_and_completes(&sources, false).unwrap();
    assert!(matches!(res, MergeOutcome::Conflict));
}

#[test]
fn test_conflict_symmetry() {
    let a = vec![0x12u8, 0x34, 0x00];
    let b = vec![0x00u8, 0x35, 0x00];
    for use_mmap in [false, true] {
        let ab = check_sanity_and_completes(&vec![a.clone(), b.clone()], use_mmap).unwrap();
        let ba = check_sanity_and_completes(&vec![b.clone(), a.clone()], use_mmap).unwrap();
        assert!(matches!(ab, MergeOutcome::Conflict));
        assert!(matches!(ba, MergeOutcome::Conflict));
    }
}

#[test]
fn test_compatible_merge_multiple() {
    let sources = vec![vec![1u8, 0, 0], vec![0u8, 1, 0], vec![1u8, 1, 0]];
    let (bytes, is_complete) = merged_of(&sources, false);
    assert_eq!(is_complete, vec![false, false, true]);
    assert_eq!(bytes, vec![1u8, 1, 0]);
}

#[test]
fn test_check_sanity_and_completes_empty_paths() {
    let sources: Vec<Vec<u8>> = vec![];
    let result = check_sanity_and_completes(&sources, false).unwrap();
    assert!(matches!(result, MergeOutcome::NothingToMerge));
}

#[test]
fn test_check_sanity_and_completes_zero_size_file() {
    let result = check_sanity_and_completes(&vec![vec![]], false).unwrap();
    assert!(matches!(result, MergeOutcome::NothingToMerge));
    // An empty first file decides, whatever follows.
    let result = check_sanity_and_completes(&vec![vec![], vec![1u8]], true).unwrap();
    assert!(matches!(result, MergeOutcome::NothingToMerge));
}

#[test]
fn test_merge_ignores_order() {
    let a = vec![1u8, 0, 0, 7];
    let b = vec![0u8, 2, 0, 7];
    let c = vec![1u8, 2, 0, 7];
    let (abc, flags_abc) = merged_of(&vec![a.clone(), b.clone(), c.clone()], false);
    let (cab, flags_cab) = merged_of(&vec![c.clone(), a.clone(), b.clone()], false);
    assert_eq!(abc, cab);
    assert_eq!(abc, vec![1u8, 2, 0, 7]);
    assert_eq!(flags_abc, vec![false, false, true]);
    assert_eq!(flags_cab, vec![true, false, false]);
}

#[test]
fn test_merge_is_idempotent() {
    let sources = vec![vec![1u8, 0, 3], vec![0u8, 2, 3]];
    let (merged, flags) = merged_of(&sources, false);
    assert_eq!(flags, vec![false, false]);
    let again = vec![merged.clone(), merged.clone()];
    let (merged_again, flags_again) = merged_of(&again, false);
    assert_eq!(merged_again, merged);
    assert_eq!(flags_again, vec![true, true]);
}

#[test]
fn test_mapped_and_buffered_scans_agree() {
    // More than two chunks, with a last chunk that is shorter and odd.
    let len = 2 * BUFFER_SIZE + 12345;
    let mut a = patterned(len, 3, 1);
    a[len - 1] = 1;
    let b = patterned(len, 5, 1);
    let mut c = patterned(len, 1, 1);
    c[len - 1] = 0;
    let sources = vec![a, b, c];
    let (buffered, flags_buffered) = merged_of(&sources, false);
    let (mapped, flags_mapped) = merged_of(&sources, true);
    assert_eq!(buffered.len(), len);
    assert!(buffered == mapped);
    assert_eq!(flags_buffered, flags_mapped);
    assert_eq!(flags_buffered, vec![false, false, false]);
    assert_eq!(buffered[len - 1], 1);
    assert_eq!(buffered[len - 2], 1);
}

#[test]
fn test_completeness_is_for_the_whole_file() {
    // The first chunk of the second source equals the merged chunk, the last does not.
    let len = BUFFER_SIZE + 9;
    let full = vec![7u8; len];
    let mut partial = vec![7u8; len];
    partial[len - 1] = 0;
    for use_mmap in [false, true] {
        let (merged, flags) = merged_of(&vec![full.clone(), partial.clone()], use_mmap);
        assert!(merged == full);
        assert_eq!(flags, vec![true, false]);
    }
}

#[test]
fn test_conflict_in_a_later_chunk() {
    let len = BUFFER_SIZE + 100;
    let mut a = vec![0u8; len];
    let mut b = vec![0u8; len];
    a[BUFFER_SIZE + 50] = 1;
    b[BUFFER_SIZE + 50] = 2;
    for use_mmap in [false, true] {
        let res = check_sanity_and_completes(&vec![a.clone(), b.clone()], use_mmap).unwrap();
        assert!(matches!(res, MergeOutcome::Conflict));
    }
}

#[test]
fn test_check_sanity_and_completes_memory_mapping() {
    let large_data = vec![0x12u8; 6 * 1024 * 1024];
    let large_data2 = vec![0x00u8; 6 * 1024 * 1024];
    let (bytes, is_complete) = merged_of(&vec![large_data, large_data2], true);
    assert_eq!(is_complete, vec![true, false]);
    assert_eq!(bytes.len(), 6 * 1024 * 1024);
    assert_eq!(bytes[0], 0x12);
}

#[test]
fn test_merge_scan_by_hand() {
    let a = vec![1u8, 0, 0, 4, 0];
    let b = vec![0u8, 2, 0, 4, 0];
    let mut scan = MergeScan::new(2, 5);
    assert_eq!(scan.size(), 5);
    assert_eq!(scan.processed(), 0);
    assert!(!scan.is_finished());
    assert_eq!(scan.chunk_len(), 5);
    let mut or_chunk = vec![0u8; 5];
    assert!(scan.absorb(&vec![a.clone(), b.clone()], &mut or_chunk, Stride::Words));
    assert_eq!(or_chunk, vec![1u8, 2, 0, 4, 0]);
    assert_eq!(scan.processed(), 5);
    assert!(scan.is_finished());
    assert!(!scan.has_conflict());
    assert_eq!(scan.is_complete(), &vec![false, false]);
    assert_eq!(scan.chunk_len(), 0);
    assert_eq!(scan.into_flags(), vec![false, false]);
}

#[test]
fn test_merge_scan_reports_short_mapping() {
    let a = vec![1u8, 0, 0, 4, 0];
    let b = vec![0u8, 2, 0];
    let maps: Vec<&[u8]> = vec![&a, &b];
    let mut scan = MergeScan::new(2, 5);
    let mut or_chunk = vec![0u8; 5];
    let res = scan.absorb_mapped(&maps, &mut or_chunk, Stride::Words);
    assert_eq!(res, Err(MergeError::MappingBounds { index: 1 }));
    assert_eq!(scan.processed(), 0);
    assert!(!scan.has_conflict());
    let maps: Vec<&[u8]> = vec![&a, &a];
    assert_eq!(scan.absorb_mapped(&maps, &mut or_chunk, Stride::Bytes), Ok(true));
    assert_eq!(or_chunk, a);
    assert_eq!(scan.into_flags(), vec![true, true]);
}

#[test]
fn test_merge_scan_conflict_stops_the_scan() {
    let a = vec![1u8, 5];
    let b = vec![1u8, 6];
    let mut scan = MergeScan::new(2, 2);
    let mut or_chunk = vec![0u8; 2];
    assert!(!scan.absorb(&vec![a, b], &mut or_chunk, Stride::Words));
    assert!(scan.has_conflict());
    assert!(scan.is_finished());
    assert_eq!(scan.processed(), 0);
}
