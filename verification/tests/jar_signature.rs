use html2apk::aab::entry_digest;
use rsa::signature::{SignatureEncoding, Signer};
use html2apk::jarsign::{
    certificate_is_readable, der, manifest_files, pkcs7_signed_data, read_tlv, wrap_attribute,
    JarError,
};

#[test]
fn wraps_long_lines_at_70_bytes() {
    let long_name = format!("base/assets/www/{}.js", "a".repeat(100));
    let wrapped = wrap_attribute("Name", &long_name);
    let text = String::from_utf8(wrapped).unwrap();
    for line in text.split("\r\n") {
        assert!(line.len() <= 70, "line too long: {}", line.len());
    }
    let rejoined: String = text
        .split("\r\n")
        .enumerate()
        .map(|(i, line)| if i == 0 { line } else { line.strip_prefix(' ').unwrap_or(line) })
        .collect();
    assert_eq!(rejoined, format!("Name: {long_name}"));
}

#[test]
fn der_length_encodings() {
    assert_eq!(der(0x04, &[0u8; 3])[..2], [0x04, 0x03]);
    assert_eq!(der(0x04, &vec![0u8; 200])[..3], [0x04, 0x81, 200]);
    assert_eq!(der(0x04, &vec![0u8; 500])[..4], [0x04, 0x82, 0x01, 0xF4]);
}

#[test]
fn wrapping_keeps_characters_whole() {
    let value = "あ".repeat(30);
    let wrapped = wrap_attribute("Name", &value);
    let text = String::from_utf8(wrapped).unwrap();
    let lines: Vec<&str> = text.split("\r\n").collect();
    assert_eq!(lines[0].len(), 69);
    assert!(lines[1].starts_with(' '));
    assert_eq!(wrap_attribute("Name", "x"), b"Name: x\r\n".to_vec());
}

#[test]
fn der_content_follows_header() {
    let tlv = der(0x30, &[1, 2, 3]);
    assert_eq!(tlv, vec![0x30, 3, 1, 2, 3]);
    let long = der(0x04, &vec![7u8; 0x1_0000]);
    assert_eq!(long[..5], [0x04, 0x83, 0x01, 0x00, 0x00]);
    assert_eq!(long.len(), 5 + 0x1_0000);
}

/// A certificate as far as the signature needs it: the outer SEQUENCE, the
/// tbsCertificate with a version, a serial number, an algorithm and an issuer.
fn sample_certificate() -> Vec<u8> {
    let version = der(0xA0, &der(0x02, &[2]));
    let serial = der(0x02, &[0x01, 0x23]);
    let algorithm = der(0x30, &der(0x06, &[0x2A, 0x86]));
    let issuer = der(0x30, &der(0x31, &der(0x30, b"name")));
    let tbs = der(0x30, &[version, serial, algorithm, issuer].concat());
    der(0x30, &[tbs, der(0x30, &[]), der(0x03, &[0])].concat())
}

#[test]
fn pkcs7_names_issuer_and_serial() {
    let certificate = sample_certificate();
    assert!(certificate_is_readable(&certificate));
    let pkcs7 = pkcs7_signed_data(&certificate, &[9, 9, 9]).unwrap();
    assert_eq!(pkcs7[0], 0x30);
    let oid_signed_data = [0x06, 0x09, 0x2A, 0x86, 0x48, 0x86, 0xF7, 0x0D, 0x01, 0x07, 0x02];
    assert!(pkcs7.windows(11).any(|w| w == oid_signed_data));
    let issuer_serial = der(0x30, &[der(0x30, &der(0x31, &der(0x30, b"name"))), der(0x02, &[0x01, 0x23])].concat());
    assert!(pkcs7.windows(issuer_serial.len()).any(|w| w == issuer_serial.as_slice()));
    assert!(pkcs7.windows(5).any(|w| w == [0x04, 0x03, 9, 9, 9]));
    assert!(pkcs7.windows(certificate.len()).any(|w| w == certificate.as_slice()));
}

#[test]
fn malformed_certificates_are_refused() {
    assert_eq!(pkcs7_signed_data(&[], &[1]), Err(JarError::DerTooShort));
    assert_eq!(pkcs7_signed_data(&[0x30], &[1]), Err(JarError::DerLengthMissing));
    assert_eq!(pkcs7_signed_data(&[0x31, 0], &[1]), Err(JarError::CertificateInvalid));
    assert_eq!(pkcs7_signed_data(&[0x30, 0x80], &[1]), Err(JarError::DerLengthForm));
    assert_eq!(pkcs7_signed_data(&[0x30, 0x82, 1], &[1]), Err(JarError::DerLengthTruncated));
    let no_serial = der(0x30, &der(0x30, &der(0x04, &[1])));
    assert_eq!(pkcs7_signed_data(&no_serial, &[1]), Err(JarError::SerialMissing));
    let not_tbs = der(0x30, &der(0x02, &[1]));
    assert_eq!(pkcs7_signed_data(&not_tbs, &[1]), Err(JarError::TbsInvalid));
    let empty_tbs = vec![0x30, 0x02, 0x30, 0x00];
    assert_eq!(pkcs7_signed_data(&empty_tbs, &[1]), Err(JarError::TbsTooShort));
    let no_issuer = der(
        0x30,
        &der(0x30, &[der(0x02, &[1]), der(0x30, &[]), der(0x04, &[])].concat()),
    );
    assert_eq!(pkcs7_signed_data(&no_issuer, &[1]), Err(JarError::IssuerMissing));
}

#[test]
fn truncated_fields_are_unreadable() {
    let certificate = vec![0x30, 0x06, 0x30, 0x04, 0x02, 0x10, 0x01, 0x02];
    assert!(!certificate_is_readable(&certificate));
}

#[test]
fn entry_digest_is_sha256() {
    let (name, digest) = entry_digest("base/a.txt", b"abc");
    assert_eq!(name, "base/a.txt");
    assert_eq!(
        digest[..4],
        [0xba, 0x78, 0x16, 0xbf],
    );
    assert_eq!(digest[28..], [0xf2, 0x00, 0x15, 0xad]);
}

#[test]
fn manifest_and_signature_file_list_each_entry() {
    let entries = vec![entry_digest("base/a.txt", b"abc"), entry_digest("base/b.txt", b"")];
    let (manifest, signature_file) = manifest_files(&entries);
    let manifest = String::from_utf8(manifest).unwrap();
    assert_eq!(
        manifest,
        "Manifest-Version: 1.0\r\nCreated-By: MedjedBuilder\r\n\r\n\
         Name: base/a.txt\r\nSHA-256-Digest: ungWv48Bz+pBQUDeXa4iI7ADYaOWF3qctBD/YfIAFa0=\r\n\r\n\
         Name: base/b.txt\r\nSHA-256-Digest: 47DEQpj8HBSa+/TImW+5JCeuQeRkm5NMpJWZG3hSuFU=\r\n\r\n"
    );
    let signature_file = String::from_utf8(signature_file).unwrap();
    assert!(signature_file.starts_with("Signature-Version: 1.0\r\nCreated-By: MedjedBuilder\r\nSHA-256-Digest-Manifest: "));
    assert!(signature_file.contains("\r\nName: base/a.txt\r\nSHA-256-Digest: "));
    assert!(signature_file.contains("\r\nName: base/b.txt\r\nSHA-256-Digest: "));
    assert!(signature_file.ends_with("\r\n\r\n"));
}

#[test]
fn signing_writes_all_three_files() {
    let key = rsa::RsaPrivateKey::new(&mut rand::rngs::OsRng, 512).unwrap();
    let entries = vec![entry_digest("base/a.txt", b"abc")];
    let certificate = sample_certificate();
    let signature = html2apk::jarsign::sign_entries(&entries, &certificate, key).unwrap();
    let (manifest, signature_file) = manifest_files(&entries);
    assert_eq!(signature.manifest, manifest);
    assert_eq!(signature.signature_file, signature_file);
    assert!(signature.pkcs7.windows(certificate.len()).any(|w| w == certificate.as_slice()));
    let signer_info_signature = [0x04, 0x40];
    assert!(signature.pkcs7.windows(2).any(|w| w == signer_info_signature));
}

#[test]
fn signing_reports_a_bad_certificate() {
    let key = rsa::RsaPrivateKey::new(&mut rand::rngs::OsRng, 512).unwrap();
    let entries = vec![entry_digest("a", b"")];
    let result = html2apk::jarsign::sign_entries(&entries, &[0x31, 0x00], key);
    assert!(matches!(result, Err(JarError::CertificateInvalid)));
}

#[test]
fn der_reads_back_with_read_tlv() {
    assert_eq!(read_tlv(&der(0x30, &[1, 2, 3]), 0), Ok((0x30, 2, 3)));
    assert_eq!(read_tlv(&der(0x04, &vec![0u8; 200]), 0), Ok((0x04, 3, 200)));
    assert_eq!(read_tlv(&der(0x04, &vec![0u8; 500]), 0), Ok((0x04, 4, 500)));
}

#[test]
fn digests_are_standard_base64_with_padding() {
    let entries = vec![("z".to_string(), [0u8; 32]), ("y".to_string(), [0xffu8; 32])];
    let (manifest, _) = manifest_files(&entries);
    let manifest = String::from_utf8(manifest).unwrap();
    assert!(manifest.contains("Name: z\r\nSHA-256-Digest: AAAAAAAAAAAAAAAAAAAAAAAAAAAAAAAAAAAAAAAAAAA=\r\n"));
    assert!(manifest.contains("Name: y\r\nSHA-256-Digest: //////////////////////////////////////////8=\r\n"));
}

#[test]
fn the_signature_block_signs_the_signature_file() {
    let key = rsa::RsaPrivateKey::new(&mut rand::rngs::OsRng, 512).unwrap();
    let entries = vec![entry_digest("base/a.txt", b"abc")];
    let certificate = sample_certificate();
    let signature = html2apk::jarsign::sign_entries(&entries, &certificate, key.clone()).unwrap();
    let signer = rsa::pkcs1v15::SigningKey::<rsa::sha2::Sha256>::new(key);
    let expected = signer.try_sign(&signature.signature_file).unwrap().to_vec();
    let over_manifest = signer.try_sign(&signature.manifest).unwrap().to_vec();
    let block = pkcs7_signed_data(&certificate, &expected).unwrap();
    assert_eq!(signature.pkcs7, block);
    assert!(signature.pkcs7.windows(expected.len()).any(|w| w == expected.as_slice()));
    assert!(!signature.pkcs7.windows(over_manifest.len()).any(|w| w == over_manifest.as_slice()));
}
