use std::io::Write;

use yadict::parser::keys::KeyBlock;
use yadict::mdict::ValueFailure;
use yadict::parser::MdxError;
use yadict::{parse, Mdx};

fn be32(v: u32) -> [u8; 4] {
    v.to_be_bytes()
}

fn be64(v: u64) -> [u8; 8] {
    v.to_be_bytes()
}

fn zlib(data: &[u8]) -> Vec<u8> {
    let mut e = flate2::write::ZlibEncoder::new(Vec::new(), flate2::Compression::default());
    e.write_all(data).unwrap();
    e.finish().unwrap()
}

fn utf16le(s: &str) -> Vec<u8> {
    s.encode_utf16().flat_map(|u| u.to_le_bytes()).collect()
}

fn header(attrs: &str) -> Vec<u8> {
    let text = utf16le(&format!("<Dictionary {} />\r\n\0", attrs));
    let mut out = Vec::new();
    out.extend_from_slice(&be32(text.len() as u32));
    out.extend_from_slice(&text);
    out.extend_from_slice(&adler32::adler32(&text[..]).unwrap().to_le_bytes());
    out
}

/// A block: method word, 4 checksum bytes, payload.
fn block(comp_method: u32, payload: &[u8]) -> Vec<u8> {
    let mut out = Vec::new();
    out.extend_from_slice(&comp_method.to_le_bytes());
    out.extend_from_slice(&adler32::adler32(payload).unwrap().to_be_bytes());
    if comp_method == 2 {
        out.extend_from_slice(&zlib(payload));
    } else {
        out.extend_from_slice(payload);
    }
    out
}

/// A version 2 dictionary with `entries` (word, definition), split into key
/// blocks of `per_block` words each, all records in one zlib record block.
pub fn build_v2(entries: &[(&str, &str)], per_block: usize, attrs: &str) -> Vec<u8> {
    build_v2_with(entries, per_block, attrs, false)
}

/// The MDict cipher that the key block index is encrypted with.
fn fast_encrypt(plain: &[u8], key: &[u8]) -> Vec<u8> {
    let mut out = Vec::with_capacity(plain.len());
    let mut prev: u8 = 0x36;
    for (i, p) in plain.iter().enumerate() {
        let t = p ^ prev ^ (i as u8) ^ key[i % key.len()];
        let b = (t >> 4) | (t << 4);
        out.push(b);
        prev = b;
    }
    out
}

fn build_v2_with(entries: &[(&str, &str)], per_block: usize, attrs: &str, encrypt: bool) -> Vec<u8> {
    let mut records = Vec::new();
    let mut key_items: Vec<(u64, &str)> = Vec::new();
    for (word, def) in entries {
        key_items.push((records.len() as u64, word));
        records.extend_from_slice(def.as_bytes());
        records.push(0);
    }
    let mut blocks = Vec::new();
    let mut infos = Vec::new();
    for chunk in key_items.chunks(per_block) {
        let mut data = Vec::new();
        for (off, word) in chunk {
            data.extend_from_slice(&be64(*off));
            data.extend_from_slice(word.as_bytes());
            data.push(0);
        }
        let b = block(2, &data);
        infos.extend_from_slice(&be64(chunk.len() as u64));
        let first = chunk[0].1.as_bytes();
        let last = chunk[chunk.len() - 1].1.as_bytes();
        infos.extend_from_slice(&(first.len() as u16).to_be_bytes());
        infos.extend_from_slice(first);
        infos.push(0);
        infos.extend_from_slice(&(last.len() as u16).to_be_bytes());
        infos.extend_from_slice(last);
        infos.push(0);
        infos.extend_from_slice(&be64(b.len() as u64));
        infos.extend_from_slice(&be64(data.len() as u64));
        blocks.extend_from_slice(&b);
    }
    let mut info_block = vec![2u8, 0, 0, 0];
    let salt = adler32::adler32(&infos[..]).unwrap().to_be_bytes();
    info_block.extend_from_slice(&salt);
    if encrypt {
        let mut seed = salt.to_vec();
        seed.extend_from_slice(&[0x95, 0x36, 0, 0]);
        let key = <ripemd::Ripemd128 as ripemd::Digest>::digest(&seed);
        info_block.extend_from_slice(&fast_encrypt(&zlib(&infos), &key));
    } else {
        info_block.extend_from_slice(&zlib(&infos));
    }

    let mut out = header(attrs);
    let mut kh = Vec::new();
    kh.extend_from_slice(&be64((key_items.len() + per_block - 1) as u64 / per_block as u64));
    kh.extend_from_slice(&be64(key_items.len() as u64));
    kh.extend_from_slice(&be64(infos.len() as u64));
    kh.extend_from_slice(&be64(info_block.len() as u64));
    kh.extend_from_slice(&be64(blocks.len() as u64));
    out.extend_from_slice(&kh);
    out.extend_from_slice(&be32(adler32::adler32(&kh[..]).unwrap()));
    out.extend_from_slice(&info_block);
    out.extend_from_slice(&blocks);

    let rec_block = block(2, &records);
    out.extend_from_slice(&be64(1));
    out.extend_from_slice(&be64(key_items.len() as u64));
    out.extend_from_slice(&be64(16));
    out.extend_from_slice(&be64(rec_block.len() as u64));
    out.extend_from_slice(&be64(rec_block.len() as u64));
    out.extend_from_slice(&be64(records.len() as u64));
    out.extend_from_slice(&rec_block);
    out
}

fn sample() -> Mdx {
    let data = build_v2(
        &[("cat", "<b>猫</b>"), ("cat-", "prefix"), ("dog", "狗"), ("狗", "dog"), ("猫", "cat")],
        2,
        r#"GeneratedByEngineVersion="2.0" Encrypted="0" Encoding="UTF-8""#,
    );
    parse(data).expect("sample dictionary parses")
}

#[test]
fn parses_header_attributes() {
    let mdx = sample();
    assert_eq!(mdx.encoding, "UTF-8");
    assert_eq!(mdx.encrypted, 0);
}

#[test]
fn test_query() {
    let mdx = sample();
    for word in &["cat", "dog", "猫", "狗"] {
        let result = mdx.lookup(word);
        assert!(!result.is_empty());
        for record in result {
            assert_eq!(record.key().unwrap(), *word);
        }
    }
    let mut cat = mdx.lookup("cat");
    assert_eq!(cat.len(), 1);
    assert_eq!(cat[0].value().unwrap(), "<b>猫</b>");
    assert_eq!(cat[0].value().unwrap(), "<b>猫</b>");
    assert_eq!(mdx.lookup("猫")[0].value().unwrap(), "cat");
    assert_eq!(mdx.lookup("狗")[0].value().unwrap(), "dog");
}

#[test]
fn lookup_is_case_sensitive_and_exact() {
    let mdx = sample();
    assert!(mdx.lookup("CAT").is_empty());
    assert!(mdx.lookup("ca").is_empty());
    assert_eq!(mdx.lookup("cat-")[0].value().unwrap(), "prefix");
}

#[test]
fn keys_and_items_list_every_key_in_order() {
    let mdx = sample();
    let keys: Vec<Vec<u8>> = mdx.keys().iter().map(|k| k.text.to_vec()).collect();
    assert_eq!(
        keys,
        vec![
            b"cat".to_vec(),
            b"cat-".to_vec(),
            b"dog".to_vec(),
            "狗".as_bytes().to_vec(),
            "猫".as_bytes().to_vec()
        ]
    );
    let mut items = mdx.items();
    assert_eq!(items.len(), 5);
    assert_eq!(items[2].value().unwrap(), "狗");
}

#[test]
fn header_checksum_mismatch_is_refused() {
    let mut data = build_v2(&[("a", "b")], 1, r#"GeneratedByEngineVersion="2.0""#);
    let n = u32::from_be_bytes([data[0], data[1], data[2], data[3]]) as usize;
    data[4 + n] ^= 1;
    assert_eq!(parse(data).err(), Some(MdxError::HeaderChecksum));
}

#[test]
fn missing_version_is_refused() {
    let data = build_v2(&[("a", "b")], 1, r#"Encoding="UTF-8""#);
    assert_eq!(parse(data).err(), Some(MdxError::MissingVersion));
}

#[test]
fn unsupported_versions_are_refused() {
    let data = build_v2(&[("a", "b")], 1, r#"GeneratedByEngineVersion="3.0""#);
    assert_eq!(parse(data).err(), Some(MdxError::UnsupportedVersion));
    let data = build_v2(&[("a", "b")], 1, r#"GeneratedByEngineVersion="7.0""#);
    assert_eq!(parse(data).err(), Some(MdxError::UnsupportedVersion));
    let data = build_v2(&[("a", "b")], 1, r#"GeneratedByEngineVersion="x""#);
    assert_eq!(parse(data).err(), Some(MdxError::InvalidVersion));
}

#[test]
fn truncated_file_is_refused() {
    let data = build_v2(&[("a", "b")], 1, r#"GeneratedByEngineVersion="2.0""#);
    for cut in [0, 3, 10] {
        assert_eq!(parse(data[..cut].to_vec()).err(), Some(MdxError::Truncated));
    }
    // the record blocks are read only when a record is asked for
    let mdx = parse(data[..data.len() - 1].to_vec()).expect("index is whole");
    let mut found = mdx.lookup("a");
    assert_eq!(found.len(), 1);
    assert_eq!(found[0].value(), Err(ValueFailure::NoDefinition));
    // a second call gives the remembered result
    assert_eq!(found[0].value(), Err(ValueFailure::NoDefinition));
}

#[test]
fn key_block_entries_and_bounds() {
    let mut data = Vec::new();
    data.extend_from_slice(&be64(7));
    data.extend_from_slice(b"abc\0");
    let block = KeyBlock { data: data.clone(), entries: yadict::parser::keys::parse_block_items(&data, true).unwrap() };
    assert_eq!(block.first_key(), Some(&b"abc"[..]));
    assert_eq!(block.last_key(), Some(&b"abc"[..]));
    assert_eq!(block.entries()[0].offset, 7);
    let found = block.lookup("abc", "utf-8");
    assert_eq!(found.len(), 1);
    assert!(block.lookup("abc", "no-such-encoding").is_empty());
}

#[test]
fn encrypted_key_index_is_decrypted() {
    let data = build_v2_with(
        &[("apple", "苹果"), ("pear", "梨")],
        1,
        r#"GeneratedByEngineVersion="2.0" Encrypted="2" Encoding="UTF-8""#,
        true,
    );
    let mdx = parse(data).expect("encrypted index parses");
    assert_eq!(mdx.encrypted, 2);
    assert_eq!(mdx.lookup("pear")[0].value().unwrap(), "梨");
    assert_eq!(mdx.lookup("apple")[0].value().unwrap(), "苹果");
}

#[test]
fn an_index_encrypted_with_the_wrong_key_is_refused() {
    let data = build_v2_with(
        &[("apple", "苹果")],
        1,
        r#"GeneratedByEngineVersion="2.0" Encrypted="0" Encoding="UTF-8""#,
        true,
    );
    assert_eq!(parse(data).err(), Some(MdxError::Decompression));
}
