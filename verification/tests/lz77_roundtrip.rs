use fnt4_tool::lz77::{compress, decompress};

fn generate_test_data() -> Vec<u8> {
    let mut data = Vec::new();
    data.extend_from_slice(b"AAAAAAAAAA");
    data.extend_from_slice(b"123451234512345");
    data.extend_from_slice(b"The quick brown fox jumps over the lazy dog. ");
    data.extend_from_slice(b"The quick brown fox jumps over the lazy dog.");
    data
}

#[test]
fn test_compress_v0() {
    println!("--- Testing V0 (low_bits=3, ref_bytes=1) ---");
    let input = b"ABCCCCCC_ABCCCCCC";

    let compressed = compress(input, 3, 1);
    let decompressed = decompress(&compressed, 3, 1);

    println!("Original Len: {}", input.len());
    println!("Comp Len:     {}", compressed.len());
    println!("Compressed:   {:?}", compressed);

    assert_eq!(input, &decompressed[..], "V0 Decompression mismatch");
}

#[test]
fn test_compress_v1() {
    println!("--- Testing V1 (low_bits=10, ref_bytes=2) ---");
    let input = generate_test_data();

    let compressed = compress(&input, 10, 2);
    let decompressed = decompress(&compressed, 10, 2);

    println!("Original Len: {}", input.len());
    println!("Comp Len:     {}", compressed.len());

    assert_eq!(input, &decompressed[..], "V1 Decompression mismatch");
}

#[test]
fn test_consistency() {
    let input = b"Lorem ipsum dolor sit amet, consectetur adipiscing elit.";

    let c0 = compress(input, 3, 1);
    let d0 = decompress(&c0, 3, 1);
    assert_eq!(input, &d0[..]);

    let c1 = compress(input, 10, 2);
    let d1 = decompress(&c1, 10, 2);
    assert_eq!(input, &d1[..]);
}
