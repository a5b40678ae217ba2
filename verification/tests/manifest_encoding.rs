use html2apk::axml::{
    decode_length16, decode_length8, decode_utf16_string, decode_utf8_string, encode_length16,
    encode_length8, encode_string_pool, encode_utf16_string, encode_utf8_string, parse_string_pool,
    patch_manifest, try_patch_manifest, utf16_units, AxmlError,
};
use html2apk::replacements::Replacements;

#[test]
fn utf8_lengths_round_trip() {
    for value in [0, 1, 127, 128, 1024, 32767] {
        let mut bytes = Vec::new();
        encode_length8(value, &mut bytes).unwrap();
        assert_eq!(decode_length8(&bytes).unwrap().0, value);
    }
}

#[test]
fn utf16_lengths_round_trip() {
    for value in [0, 1, 32767, 32768, 100_000] {
        let mut bytes = Vec::new();
        encode_length16(value, &mut bytes).unwrap();
        assert_eq!(decode_length16(&bytes).unwrap().0, value);
    }
}

#[test]
fn length_encodings_have_exact_bytes() {
    let mut bytes = Vec::new();
    encode_length8(0x7f, &mut bytes).unwrap();
    assert_eq!(bytes, vec![0x7f]);
    let mut bytes = Vec::new();
    encode_length8(0x1234, &mut bytes).unwrap();
    assert_eq!(bytes, vec![0x92, 0x34]);
    let mut bytes = Vec::new();
    encode_length16(0x12345, &mut bytes).unwrap();
    assert_eq!(bytes, vec![0x01, 0x80, 0x45, 0x23]);
    assert_eq!(decode_length16(&bytes).unwrap(), (0x12345, 4));
}

#[test]
fn overlong_lengths_are_refused() {
    let mut bytes = vec![9u8];
    assert_eq!(encode_length8(0x8000, &mut bytes), Err(AxmlError::StringTooLong));
    assert_eq!(bytes, vec![9u8]);
    assert_eq!(encode_length16(0x8000_0000, &mut bytes), Err(AxmlError::StringTooLong));
    assert_eq!(decode_length8(&[]), Err(AxmlError::LengthMissing));
    assert_eq!(decode_length8(&[0x81]), Err(AxmlError::LengthTruncated));
    assert_eq!(decode_length16(&[0x01]), Err(AxmlError::U16OutOfRange));
}

#[test]
fn pool_strings_round_trip() {
    for text in ["", "index", "テスト", "emoji 😀 text"] {
        let mut bytes = Vec::new();
        encode_utf8_string(text, &mut bytes).unwrap();
        assert_eq!(decode_utf8_string(&bytes).unwrap(), text);
        let mut bytes = Vec::new();
        encode_utf16_string(text, &mut bytes).unwrap();
        assert_eq!(decode_utf16_string(&bytes).unwrap(), text);
    }
}

#[test]
fn pool_string_entries_have_exact_bytes() {
    let mut bytes = Vec::new();
    encode_utf8_string("é", &mut bytes).unwrap();
    assert_eq!(bytes, vec![1, 2, 0xc3, 0xa9, 0]);
    let mut bytes = Vec::new();
    encode_utf16_string("😀", &mut bytes).unwrap();
    assert_eq!(bytes, vec![2, 0, 0x3d, 0xd8, 0x00, 0xde, 0, 0]);
    assert_eq!(utf16_units("a😀"), vec![0x61, 0xd83d, 0xde00]);
}

#[test]
fn broken_pool_strings_are_refused() {
    assert_eq!(decode_utf8_string(&[1, 1, b'a']), Err(AxmlError::Utf8Truncated));
    assert_eq!(decode_utf8_string(&[1, 1, 0xff, 0]), Err(AxmlError::Utf8Invalid));
    assert_eq!(decode_utf16_string(&[1, 0, 0x00, 0xd8]), Err(AxmlError::Utf16Truncated));
    assert_eq!(decode_utf16_string(&[1, 0, 0x00, 0xd8, 0, 0]), Err(AxmlError::Utf16Invalid));
}

fn le16(v: u16) -> [u8; 2] {
    v.to_le_bytes()
}

fn le32(v: u32) -> [u8; 4] {
    v.to_le_bytes()
}

/// A binary manifest: the file header, a UTF-8 string pool and one start
/// element whose attributes are named by the given string indexes.
fn sample_axml(strings: &[&str], attribute_names: &[u32]) -> Vec<u8> {
    sample_axml_with(strings, attribute_names, true)
}

fn sample_axml_with(strings: &[&str], attribute_names: &[u32], utf8: bool) -> Vec<u8> {
    let mut data = Vec::new();
    let mut offsets = Vec::new();
    for s in strings {
        offsets.push(data.len() as u32);
        if utf8 {
            encode_utf8_string(s, &mut data).unwrap();
        } else {
            encode_utf16_string(s, &mut data).unwrap();
        }
    }
    while data.len() % 4 != 0 {
        data.push(0);
    }
    let strings_start = 28 + 4 * strings.len() as u32;
    let pool_size = strings_start + data.len() as u32;
    let mut pool = Vec::new();
    pool.extend_from_slice(&le16(0x0001));
    pool.extend_from_slice(&le16(28));
    pool.extend_from_slice(&le32(pool_size));
    pool.extend_from_slice(&le32(strings.len() as u32));
    pool.extend_from_slice(&le32(0));
    pool.extend_from_slice(&le32(if utf8 { 0x100 } else { 0 }));
    pool.extend_from_slice(&le32(strings_start));
    pool.extend_from_slice(&le32(0));
    for o in offsets {
        pool.extend_from_slice(&le32(o));
    }
    pool.extend_from_slice(&data);

    let mut element = Vec::new();
    let count = attribute_names.len() as u32;
    element.extend_from_slice(&le16(0x0102));
    element.extend_from_slice(&le16(16));
    element.extend_from_slice(&le32(16 + 20 + 20 * count));
    element.extend_from_slice(&le32(1));
    element.extend_from_slice(&le32(0xffff_ffff));
    element.extend_from_slice(&le32(0xffff_ffff));
    element.extend_from_slice(&le32(0));
    element.extend_from_slice(&le16(20));
    element.extend_from_slice(&le16(20));
    element.extend_from_slice(&le16(count as u16));
    element.extend_from_slice(&[0; 6]);
    for name in attribute_names {
        element.extend_from_slice(&le32(0xffff_ffff));
        element.extend_from_slice(&le32(*name));
        element.extend_from_slice(&le32(0xffff_ffff));
        element.extend_from_slice(&le16(8));
        element.push(0);
        element.push(0x10);
        element.extend_from_slice(&le32(7));
    }

    let mut out = Vec::new();
    out.extend_from_slice(&le16(0x0003));
    out.extend_from_slice(&le16(8));
    out.extend_from_slice(&le32(8 + pool.len() as u32 + element.len() as u32));
    out.extend_from_slice(&pool);
    out.extend_from_slice(&element);
    out
}

fn contains(haystack: &[u8], needle: &[u8]) -> bool {
    haystack.windows(needle.len()).any(|w| w == needle)
}

#[test]
fn binary_manifest_is_patched() {
    let manifest = sample_axml(
        &["io.html2apk.generated", "versionCode", "usesCleartextTraffic"],
        &[1, 2, 0],
    );
    let mut replacements = Replacements::new();
    replacements.insert("io.html2apk.generated".to_string(), "com.example.app".to_string());
    let patched = patch_manifest(&manifest, &replacements, 42, true).unwrap();
    assert!(contains(&patched, b"com.example.app"));
    assert!(!contains(&patched, b"io.html2apk.generated"));
    assert_eq!(u32::from_le_bytes(patched[4..8].try_into().unwrap()) as usize, patched.len());
    let element = patched.len() - (16 + 20 + 60);
    let attribute = |i: usize| {
        let at = element + 36 + 20 * i + 16;
        u32::from_le_bytes(patched[at..at + 4].try_into().unwrap())
    };
    assert_eq!(attribute(0), 42);
    assert_eq!(attribute(1), 1);
    assert_eq!(attribute(2), 7);
}

#[test]
fn cleartext_off_writes_zero() {
    let manifest = sample_axml(&["usesCleartextTraffic"], &[0]);
    let patched = patch_manifest(&manifest, &Replacements::new(), 3, false).unwrap();
    let at = patched.len() - 20 + 16;
    assert_eq!(u32::from_le_bytes(patched[at..at + 4].try_into().unwrap()), 0);
}

#[test]
fn short_or_poolless_manifests_are_refused() {
    let replacements = Replacements::new();
    assert_eq!(patch_manifest(&[3, 0, 8, 0], &replacements, 1, false), Err(AxmlError::ManifestTooShort));
    let header_only = [3u8, 0, 8, 0, 8, 0, 0, 0];
    assert_eq!(patch_manifest(&header_only, &replacements, 1, false), Err(AxmlError::PoolNotFound));
    let mut bad_size = sample_axml(&["a"], &[]);
    bad_size[12..16].copy_from_slice(&le32(0xffff));
    assert_eq!(patch_manifest(&bad_size, &replacements, 1, false), Err(AxmlError::ChunkSizeInvalid));
}

#[test]
fn empty_chunk_is_reported_instead_of_looping() {
    let mut manifest = vec![3u8, 0, 8, 0, 16, 0, 0, 0];
    manifest.extend_from_slice(&[0x80, 0x01, 0, 0, 0, 0, 0, 0]);
    assert!(try_patch_manifest(&manifest, &Replacements::new(), 1, false).is_none());
    let good = sample_axml(&["x"], &[]);
    assert!(matches!(try_patch_manifest(&good, &Replacements::new(), 1, false), Some(Ok(_))));
}

fn utf16_bytes(text: &str) -> Vec<u8> {
    text.encode_utf16().flat_map(|u| u.to_le_bytes()).collect()
}

#[test]
fn utf16_pool_is_patched() {
    let manifest = sample_axml_with(&["__H2A_APP_NAME__", "versionCode"], &[1], false);
    let mut replacements = Replacements::new();
    replacements.insert("__H2A_APP_NAME__".to_string(), "テスト".to_string());
    let patched = patch_manifest(&manifest, &replacements, 9, false).unwrap();
    assert!(contains(&patched, &utf16_bytes("テスト")));
    assert!(!contains(&patched, &utf16_bytes("__H2A_APP_NAME__")));
    let at = patched.len() - 20 + 16;
    assert_eq!(u32::from_le_bytes(patched[at..at + 4].try_into().unwrap()), 9);
}

#[test]
fn encoded_string_pool_parses_back() {
    let manifest = sample_axml(&["package", "__H2A_APP_NAME__", "versionCode"], &[2]);
    let pool = parse_string_pool(&manifest).ok().unwrap();
    assert_eq!(pool.offset, 8);
    assert_eq!(pool.strings, vec!["package", "__H2A_APP_NAME__", "versionCode"]);
    let strings = vec!["package".to_string(), "テスト".to_string(), "versionCode".to_string()];
    let chunk = encode_string_pool(&pool, &strings).unwrap();
    let mut document = Vec::new();
    document.extend_from_slice(&le16(0x0003));
    document.extend_from_slice(&le16(8));
    document.extend_from_slice(&le32(8 + chunk.len() as u32));
    document.extend_from_slice(&chunk);
    let again = parse_string_pool(&document).ok().unwrap();
    assert_eq!(again.strings, strings);
    assert_eq!(again.offset, 8);
    assert_eq!(again.chunk_size, chunk.len());
    assert_eq!(again.flags, pool.flags);
    assert_eq!(again.header_size, pool.header_size);
    assert_eq!(again.string_count, pool.string_count);
    assert_eq!(again.style_count, pool.style_count);
    assert_eq!(again.style_offsets, pool.style_offsets);
    assert_eq!(again.style_data, pool.style_data);
}

#[test]
fn only_typed_values_change_after_the_pool() {
    let manifest = sample_axml(&["versionCode", "label", "usesCleartextTraffic"], &[0, 1, 2]);
    let patched = patch_manifest(&manifest, &Replacements::new(), 77, true).unwrap();
    assert_eq!(patched.len(), manifest.len());
    let element = manifest.len() - (16 + 20 + 60);
    let typed = |k: usize| (0..3).any(|i| {
        let at = element + 36 + 20 * i + 16;
        (at..at + 4).contains(&k)
    });
    for k in 0..manifest.len() {
        if patched[k] != manifest[k] {
            assert!(typed(k), "byte {k} changed");
        }
    }
    let at = element + 36 + 20 + 16;
    assert_eq!(patched[at..at + 4], manifest[at..at + 4]);
}
