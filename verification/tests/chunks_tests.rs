use afb_dds::chunks::{
    chunk_name, extract_chunks, find_chunks, locate_chunks, locate_dds_chunks, replace_chunks,
    ChunkError,
};

#[test]
fn find_returns_first_match_at_or_after_start() {
    let hay = b"abcabcab";
    assert_eq!(find_chunks(hay, b"abc", 0), Some(0));
    assert_eq!(find_chunks(hay, b"abc", 1), Some(3));
    assert_eq!(find_chunks(hay, b"abc", 4), None);
    assert_eq!(find_chunks(hay, b"ab", 4), Some(6));
}

#[test]
fn find_edge_cases() {
    assert_eq!(find_chunks(b"abc", b"", 0), None);
    assert_eq!(find_chunks(b"abc", b"a", 3), None);
    assert_eq!(find_chunks(b"abc", b"a", 10), None);
    assert_eq!(find_chunks(b"ab", b"abc", 0), None);
    assert_eq!(find_chunks(b"", b"a", 0), None);
}

#[test]
fn locate_splits_at_stop_sign_and_next_header() {
    // H = "HH", S = "SS"
    let input = b"xxHHaaSSyyHHbbHHcc";
    let chunks = locate_chunks(input, b"HH", b"SS");
    assert_eq!(chunks, vec![(2, 6), (10, 14), (14, 18)]);
}

#[test]
fn locate_without_header_or_with_empty_header() {
    assert_eq!(locate_chunks(b"no headers here", b"HH", b"SS"), vec![]);
    assert_eq!(locate_chunks(b"HHaa", b"", b"SS"), vec![]);
    assert_eq!(locate_chunks(b"HHaa", b"HH", b""), vec![(0, 4)]);
}

#[test]
fn locate_dds_chunks_in_container() {
    let data = b"headDDS aaaaDDS bbPOF0end";
    assert_eq!(locate_dds_chunks(data), vec![(4, 12), (12, 18)]);
    assert_eq!(locate_dds_chunks(b"nothing"), vec![]);
}

#[test]
fn every_located_chunk_starts_with_its_header() {
    let data = b"DDS xDDS DDS yyPOF0DDS z";
    let chunks = locate_dds_chunks(data);
    assert_eq!(chunks, vec![(0, 5), (5, 9), (9, 15), (19, 24)]);
    for (s, e) in chunks {
        assert_eq!(&data[s..s + 4], b"DDS ");
        assert!(s < e && e <= data.len());
    }
}

#[test]
fn replace_chunks_splices_replacements() {
    let input = b"aaXXbbYYcc";
    let chunks = [(2, 4), (6, 8)];
    let out = replace_chunks(input, &chunks, &[Some(b"1234"), None]).unwrap();
    assert_eq!(out, b"aa1234bbYYcc".to_vec());
    let out = replace_chunks(input, &chunks, &[None, Some(b"")]).unwrap();
    assert_eq!(out, b"aaXXbbcc".to_vec());
}

#[test]
fn replace_chunks_without_replacements_is_identity() {
    let input = b"aaXXbbYYcc";
    let chunks = [(2, 4), (6, 8)];
    assert_eq!(replace_chunks(input, &chunks, &[None, None]).unwrap(), input.to_vec());
    assert_eq!(replace_chunks(input, &[], &[]).unwrap(), input.to_vec());
}

#[test]
fn replace_chunks_rejects_too_few_replacements() {
    let input = b"aaXXbbYYcc";
    let chunks = [(2, 4), (6, 8)];
    assert_eq!(
        replace_chunks(input, &chunks, &[None]),
        Err(ChunkError::TooFewReplacements { replacements: 1, chunks: 2 })
    );
}

#[test]
fn chunk_names_are_zero_padded() {
    assert_eq!(chunk_name("test", 0, ".dds"), "test_0001.dds");
    assert_eq!(chunk_name("a", 9, ".x"), "a_0010.x");
    assert_eq!(chunk_name("a", 98, ""), "a_0099");
    assert_eq!(chunk_name("a", 999, ""), "a_1000");
    assert_eq!(chunk_name("b", 12344, ".dds"), "b_12345.dds");
}

#[test]
fn extract_chunks_names_and_slices() {
    let input = b"0123456789";
    let files = extract_chunks(input, "base", ".bin", &[(1, 3), (5, 5), (7, 10)]);
    assert_eq!(files.len(), 3);
    assert_eq!(files[0].name, "base_0001.bin");
    assert_eq!(files[0].bytes, b"12".to_vec());
    assert_eq!(files[1].bytes, Vec::<u8>::new());
    assert_eq!(files[2].name, "base_0003.bin");
    assert_eq!(files[2].bytes, b"789".to_vec());
}

#[test]
fn chunk_names_never_repeat() {
    let names: Vec<String> = (0..12000).map(|i| chunk_name("x", i, ".dds")).collect();
    let mut sorted = names.clone();
    sorted.sort();
    sorted.dedup();
    assert_eq!(sorted.len(), names.len());
}

#[test]
fn replacing_located_chunks_keeps_the_rest() {
    let data = b"headDDS aaaaDDS bbPOF0end";
    let chunks = locate_dds_chunks(data);
    let out = replace_chunks(data, &chunks, &[Some(b"DDS X"), Some(b"DDS YY")]).unwrap();
    assert_eq!(out, b"headDDS XDDS YYPOF0end".to_vec());
    assert_eq!(locate_dds_chunks(&out), vec![(4, 9), (9, 15)]);
}
