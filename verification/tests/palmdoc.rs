use kindling::palmdoc::compress;

#[test]
fn palmdoc_test_compress_empty() {
    assert_eq!(compress(b""), Vec::<u8>::new());
    println!("  \u{2713} Compressing empty input yields empty output");
}

#[test]
fn test_compress_short() {
    let compressed = compress(b"hello");
    assert!(!compressed.is_empty());
    println!("  \u{2713} Compressed 5 bytes to {} bytes", compressed.len());
}

#[test]
fn test_compress_repeated() {
    let data = b"abcabcabcabc";
    let compressed = compress(data);
    // Compressed should be smaller than original due to LZ77 matches
    assert!(compressed.len() <= data.len());
    println!("  \u{2713} Repeated data: {} -> {} bytes", data.len(), compressed.len());
}

fn palmdoc_decompress(compressed: &[u8]) -> Vec<u8> {
    let mut output = Vec::new();
    let mut i = 0;
    while i < compressed.len() {
        let b = compressed[i];
        i += 1;
        if b == 0x00 {
            // Literal null
            output.push(0x00);
        } else if b >= 0x01 && b <= 0x08 {
            // Literal block of b bytes
            let count = b as usize;
            for _ in 0..count {
                if i < compressed.len() {
                    output.push(compressed[i]);
                    i += 1;
                }
            }
        } else if b >= 0x09 && b <= 0x7F {
            // Literal byte
            output.push(b);
        } else if b >= 0x80 && b <= 0xBF {
            // LZ77 distance/length pair
            if i < compressed.len() {
                let b2 = compressed[i];
                i += 1;
                let pair = ((b as u16 & 0x3F) << 8) | b2 as u16;
                let distance = (pair >> 3) as usize;
                let length = (pair & 0x07) as usize + 3;
                for _ in 0..length {
                    if distance > 0 && output.len() >= distance {
                        let copy_pos = output.len() - distance;
                        output.push(output[copy_pos]);
                    }
                }
            }
        } else {
            // Space + char (0xC0..0xFF)
            output.push(0x20);
            output.push(b ^ 0x80);
        }
    }
    output
}

#[test]
fn tests_test_compress_empty() {
    let compressed = compress(b"");
    let decompressed = palmdoc_decompress(&compressed);
    assert_eq!(decompressed, b"");
    println!("  \u{2713} Empty input roundtrips to empty output");
}

#[test]
fn test_compress_roundtrip_short() {
    let input = b"Hello, World! This is a test of PalmDOC compression.";
    let compressed = compress(input);
    let decompressed = palmdoc_decompress(&compressed);
    assert_eq!(
        decompressed.as_slice(),
        input.as_slice(),
        "Roundtrip failed for short input"
    );
    println!("  \u{2713} Short input roundtrip: {} -> {} -> {} bytes", input.len(), compressed.len(), decompressed.len());
}

#[test]
fn test_compress_roundtrip_exact_4096() {
    let input: Vec<u8> = (0..4096).map(|i| b"abcdefghijklmnopqrstuvwxyz"[i % 26]).collect();
    let compressed = compress(&input);
    let decompressed = palmdoc_decompress(&compressed);
    assert_eq!(
        decompressed.as_slice(),
        input.as_slice(),
        "Roundtrip failed for 4096-byte input"
    );
    println!("  \u{2713} 4096-byte roundtrip: compressed to {} bytes", compressed.len());
}

#[test]
fn test_compress_roundtrip_multi_record() {
    // >4096 bytes to test that compression works for chunks that span records
    let input: Vec<u8> = (0..10000)
        .map(|i| b"The quick brown fox jumps over the lazy dog. "[i % 45])
        .collect();
    let compressed = compress(&input);
    let decompressed = palmdoc_decompress(&compressed);
    assert_eq!(
        decompressed.as_slice(),
        input.as_slice(),
        "Roundtrip failed for multi-record input"
    );
    println!("  \u{2713} Multi-record roundtrip: {} -> {} bytes", input.len(), compressed.len());
}

#[test]
fn test_compress_roundtrip_utf8() {
    let input = "The Greek word \u{03B1}\u{03B2}\u{03B3} means abc. \u{03B4}\u{03B5}\u{03B6} means def.".as_bytes();
    let compressed = compress(input);
    let decompressed = palmdoc_decompress(&compressed);
    assert_eq!(
        decompressed.as_slice(),
        input,
        "Roundtrip failed for UTF-8 input"
    );
    println!("  \u{2713} UTF-8 roundtrip: {} -> {} bytes", input.len(), compressed.len());
}
