use fnt4_tool::lz77::search::find_offset;
use fnt4_tool::lz77::{compress, contains_slice, decompress, encode_instructions, Instruction};

#[test]
fn empty_input_compresses_to_nothing() {
    assert_eq!(compress(&[], 3, 1), Vec::<u8>::new());
    assert_eq!(compress(&[], 10, 2), Vec::<u8>::new());
    assert_eq!(decompress(&[], 3, 1), Vec::<u8>::new());
    assert_eq!(decompress(&[], 10, 2), Vec::<u8>::new());
}

#[test]
fn single_byte_is_a_literal() {
    assert_eq!(compress(b"A", 3, 1), vec![0, 65]);
    assert_eq!(compress(b"A", 10, 2), vec![0, 65]);
    assert_eq!(decompress(&[0, 65], 3, 1), b"A".to_vec());
}

#[test]
fn two_bytes_are_two_literals() {
    assert_eq!(compress(b"AB", 10, 2), vec![0, 65, 66]);
}

#[test]
fn short_run_becomes_one_reference() {
    assert_eq!(compress(b"AAAA", 10, 2), vec![2, 65, 0, 0]);
    assert_eq!(compress(b"AAAA", 3, 1), vec![2, 65, 1]);
}

#[test]
fn legacy_stream_of_a_repeated_phrase() {
    assert_eq!(compress(b"ABCCCCCC_ABCCCCCC", 3, 1), vec![40, 65, 66, 67, 3, 95, 70]);
}

#[test]
fn textured_stream_of_a_repeated_phrase() {
    assert_eq!(compress(b"ABCCCCCC_ABCCCCCC", 10, 2), vec![40, 65, 66, 67, 8, 0, 95, 20, 8]);
}

#[test]
fn pattern_repeats_past_the_window_edge() {
    assert_eq!(compress(b"abcabcabcabcabcabcX", 10, 2), vec![8, 97, 98, 99, 48, 2, 88]);
    assert_eq!(compress(b"abcabcabcabcabcabcX", 3, 1), vec![24, 97, 98, 99, 23, 20, 88]);
}

#[test]
fn two_hundred_repeated_bytes_legacy() {
    let input = vec![7u8; 200];
    let packed = compress(&input, 3, 1);
    let mut expected = vec![254u8];
    expected.extend_from_slice(&[7; 8]);
    expected.push(255);
    expected.extend_from_slice(&[7; 8]);
    expected.push(127);
    expected.extend_from_slice(&[7; 8]);
    assert_eq!(packed, expected);
    assert_eq!(decompress(&packed, 3, 1), input);
}

#[test]
fn two_hundred_repeated_bytes_textured() {
    let input = vec![7u8; 200];
    let packed = compress(&input, 10, 2);
    assert_eq!(packed, vec![14, 7, 252, 0, 252, 0, 252, 0, 7]);
    assert_eq!(decompress(&packed, 10, 2), input);
}

#[test]
fn text_without_repeats_is_all_literals() {
    let input = b"Lorem ipsum dolor sit amet, consectetur adipiscing elit.";
    let packed = compress(input, 10, 2);
    assert_eq!(packed.len(), 56 + 7);
    assert_eq!(&packed[..9], &[0, 76, 111, 114, 101, 109, 32, 105, 112]);
}

#[test]
fn round_trip_over_many_inputs_and_profiles() {
    let profiles: [(usize, usize); 6] = [(3, 1), (10, 2), (1, 1), (8, 1), (0, 2), (15, 2)];
    let mut state: u32 = 0x1234_5678;
    for round in 0..300usize {
        let len = round % 97;
        let alphabet = 1 + (round % 5) as u32;
        let mut input = Vec::with_capacity(len);
        for _ in 0..len {
            state = state.wrapping_mul(1_664_525).wrapping_add(1_013_904_223);
            input.push(((state >> 24) % alphabet) as u8);
        }
        for (low_bits, ref_bytes) in profiles {
            let packed = compress(&input, low_bits, ref_bytes);
            assert_eq!(decompress(&packed, low_bits, ref_bytes), input);
        }
    }
}

#[test]
fn decompress_reads_literals_and_references() {
    // map 0b0000_0100: literal, literal, reference
    assert_eq!(decompress(&[4, 1, 2, 0x00, 0x01], 10, 2), vec![1, 2, 1, 2, 1]);
    // legacy: offset in the high bits, length in the low three
    assert_eq!(decompress(&[4, 1, 2, 0x09], 3, 1), vec![1, 2, 1, 2, 1]);
}

#[test]
fn decompress_reference_may_overlap_itself() {
    assert_eq!(decompress(&[2, 9, 0x10, 0x00], 10, 2), vec![9; 8]);
}

#[test]
fn decompress_starts_a_new_block_after_eight_instructions() {
    let stream = [0, 1, 2, 3, 4, 5, 6, 7, 8, 2, 9, 0x00, 0x00];
    assert_eq!(decompress(&stream, 10, 2), vec![1, 2, 3, 4, 5, 6, 7, 8, 9, 9, 9, 9]);
}

#[test]
fn decompress_stops_at_a_reference_cut_short() {
    assert_eq!(decompress(&[2, 5, 0x00], 10, 2), vec![5]);
}

#[test]
fn decompress_stops_at_a_reference_behind_the_start() {
    assert_eq!(decompress(&[2, 5, 0x00, 0x01, 6], 10, 2), vec![5]);
    assert_eq!(decompress(&[1, 0x00, 5], 10, 2), Vec::<u8>::new());
}

#[test]
fn decompress_ignores_a_trailing_map_byte() {
    assert_eq!(decompress(&[0, 5, 6, 7, 8, 9, 10, 11, 12, 0xff], 3, 1), vec![5, 6, 7, 8, 9, 10, 11, 12]);
}

#[test]
fn encode_instructions_packs_both_profiles() {
    let list = [
        Instruction::Literal(65),
        Instruction::Reference { length: 3, offset: 1 },
        Instruction::Reference { length: 66, offset: 1024 },
    ];
    assert_eq!(encode_instructions(&list, 10, 2), vec![6, 65, 0x00, 0x00, 0xFF, 0xFF]);
    let legacy = [
        Instruction::Reference { length: 9, offset: 32 },
        Instruction::Literal(1),
        Instruction::Reference { length: 2, offset: 1 },
    ];
    assert_eq!(encode_instructions(&legacy, 3, 1), vec![5, 0xFF, 1, 0x00]);
}

#[test]
fn encode_instructions_writes_blocks_of_eight() {
    let mut list = Vec::new();
    for i in 0..9u8 {
        list.push(Instruction::Literal(i));
    }
    assert_eq!(encode_instructions(&list, 3, 1), vec![0, 0, 1, 2, 3, 4, 5, 6, 7, 0, 8]);
    assert_eq!(encode_instructions(&[], 3, 1), Vec::<u8>::new());
}

#[test]
fn contains_slice_finds_whole_needles_only() {
    assert!(contains_slice(b"hello world", b"lo w"));
    assert!(contains_slice(b"hello", b""));
    assert!(contains_slice(b"", b""));
    assert!(contains_slice(b"abc", b"abc"));
    assert!(!contains_slice(b"abc", b"abcd"));
    assert!(!contains_slice(b"hello", b"lol"));
    assert!(!contains_slice(b"", b"a"));
    assert!(contains_slice(b"aab", b"ab"));
}

#[test]
fn find_offset_counts_back_from_the_end() {
    assert_eq!(find_offset(b"abcabc", b"abc"), 3);
    assert_eq!(find_offset(b"abcabc", b"c"), 1);
    assert_eq!(find_offset(b"abcabcx", b"abc"), 4);
    assert_eq!(find_offset(b"abc", b"abc"), 3);
    assert_eq!(find_offset(b"abc", b"d"), 0);
    assert_eq!(find_offset(b"abc", b"bcd"), 0);
}

#[test]
fn streams_of_many_inputs_have_the_known_digest() {
    let profiles: [(usize, usize); 6] = [(3, 1), (10, 2), (1, 1), (8, 1), (0, 2), (15, 2)];
    let mut state: u32 = 0x1234_5678;
    let mut digest: u64 = 0xcbf2_9ce4_8422_2325;
    let mut total: usize = 0;
    for round in 0..300usize {
        let len = round % 97;
        let alphabet = 1 + (round % 5) as u32;
        let mut input = Vec::with_capacity(len);
        for _ in 0..len {
            state = state.wrapping_mul(1_664_525).wrapping_add(1_013_904_223);
            input.push(((state >> 24) % alphabet) as u8);
        }
        for (low_bits, ref_bytes) in profiles {
            let packed = compress(&input, low_bits, ref_bytes);
            for byte in packed.iter().copied().chain([0xFF, packed.len() as u8]) {
                digest ^= byte as u64;
                digest = digest.wrapping_mul(0x0000_0100_0000_01b3);
            }
            total += packed.len();
        }
    }
    assert_eq!(total, 60448);
    assert_eq!(digest, 0xd6df_3f27_cf62_033d);
}
