use snappy_rust::Compressor;
use snappy_rust::Decompressor;

fn roundtrip(data: &[u8]) -> bool {
    // Write into Buffer
    let mut comp = Compressor::new();
    let frames = comp.write(&data.to_vec());

    // Read into Buffer
    let mut decomp: Vec<u8> = vec![0; data.len()];
    let mut dec = Decompressor::new(frames);
    let n = dec.read(&mut decomp).unwrap_or_else(|err| {
        panic!("Error at Decompress: {:?}", err);
    });

    // Check Result
    n == data.len() && decomp == data.to_vec()
}

#[test]
/// Snappy: Roundtrip Uncompressible Data
fn should_do_uncompressible() {
    assert!(roundtrip(b"123456789abcdefg"));
    assert!(roundtrip(b"The quick red fox jumped over the lazy dog"));
}

#[test]
/// Snappy: Roundtrip Compressible Data
fn should_do_compressible() {
    assert!(roundtrip(b"1111111100000000"));
}

#[test]
/// Snappy: Test Empty
fn should_do_empty() {
    let a = [];
    roundtrip(&a);
}
