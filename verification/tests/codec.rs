use yadict::cipher::fast_decrypt;
use yadict::parser::block::decode_block;
use yadict::parser::MdxError;
use yadict::codec::adler32;

#[test]
fn adler32_of_wikipedia() {
    assert_eq!(adler32(b"Wikipedia"), 0x11E6_0398);
}

#[test]
fn adler32_of_nothing_is_one() {
    assert_eq!(adler32(b""), 1);
}

#[test]
fn adler32_agrees_with_the_adler32_crate() {
    let data: Vec<u8> = (0..100_000u32).map(|i| (i * 7 + 3) as u8).collect();
    assert_eq!(adler32(&data), adler32::adler32(&data[..]).unwrap());
}

fn reference_decrypt(data: &[u8], key: &[u8]) -> Vec<u8> {
    let mut out = data.to_vec();
    let mut prev: u8 = 0x36;
    for i in 0..out.len() {
        let b = out[i];
        let t = ((b >> 4) | (b << 4)) ^ prev ^ (i as u8) ^ key[i % key.len()];
        prev = b;
        out[i] = t;
    }
    out
}

#[test]
fn fast_decrypt_matches_the_mdict_scheme() {
    let key: Vec<u8> = (0..16u8).map(|k| k.wrapping_mul(37).wrapping_add(5)).collect();
    let data: Vec<u8> = (0..300u32).map(|i| (i * 13 + 1) as u8).collect();
    assert_eq!(fast_decrypt(&data, &key), reference_decrypt(&data, &key));
}

#[test]
fn fast_decrypt_of_nothing_is_nothing() {
    assert!(fast_decrypt(&[], &[1, 2, 3]).is_empty());
    assert!(fast_decrypt(&[], &[]).is_empty());
}

#[test]
fn a_salsa20_block_is_refused() {
    // method word 0x20: Salsa20 encryption, stored; 4 checksum bytes; 1 payload byte
    let block = [0x20u8, 0, 0, 0, 1, 2, 3, 4, 0xAB];
    assert_eq!(decode_block(&block, 0, block.len(), 1), Err(MdxError::UnsupportedEncryption));
}

#[test]
fn an_unknown_encryption_method_is_refused() {
    let block = [0x30u8, 0, 0, 0, 1, 2, 3, 4, 0xAB];
    assert_eq!(decode_block(&block, 0, block.len(), 1), Err(MdxError::UnsupportedEncryption));
}

#[test]
fn an_lzo_block_is_unpacked() {
    let text = b"hello hello hello hello hello".to_vec();
    let mut lzo = minilzo_rs::LZO::init().expect("the LZO library initialises");
    let packed = lzo.compress(&text).expect("the text compresses");
    let mut block = vec![0x01u8, 0, 0, 0, 0, 0, 0, 0];
    block.extend_from_slice(&packed);
    let (next, content) = decode_block(&block, 0, block.len(), text.len()).expect("the block is read");
    assert_eq!(next, block.len());
    assert_eq!(content, text);
}

#[test]
fn a_malformed_lzo_block_is_refused() {
    let block = [0x01u8, 0, 0, 0, 0, 0, 0, 0, 0xFF, 0xFF, 0xFF];
    assert_eq!(decode_block(&block, 0, block.len(), 64), Err(MdxError::Decompression));
}
