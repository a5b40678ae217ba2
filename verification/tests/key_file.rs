use html2apk::keyfile::{decode_stored_key, new_stored_key, stored_key_fields, KeyError};
use rsa::pkcs8::EncodePrivateKey;

fn small_key() -> rsa::RsaPrivateKey {
    rsa::RsaPrivateKey::new(&mut rand::rngs::OsRng, 512).unwrap()
}

#[test]
fn fields_are_the_format_and_base64() {
    let fields = stored_key_fields(&[0, 1, 2, 3], b"cert");
    assert_eq!(fields.format, "html2apk-signing-key-v1");
    assert_eq!(fields.private_key_pkcs8, "AAECAw==");
    assert_eq!(fields.certificate_der, "Y2VydA==");
}

#[test]
fn stored_keys_read_back() {
    let key = small_key();
    let der = key.to_pkcs8_der().unwrap().as_bytes().to_vec();
    let fields = stored_key_fields(&der, b"certificate bytes");
    let (read, certificate) =
        decode_stored_key(&fields.format, &fields.private_key_pkcs8, &fields.certificate_der).unwrap();
    assert_eq!(read, key);
    assert_eq!(certificate, b"certificate bytes".to_vec());
}

#[test]
fn stored_key_errors_come_in_order() {
    let key = small_key();
    let der = key.to_pkcs8_der().unwrap().as_bytes().to_vec();
    let fields = stored_key_fields(&der, b"c");
    assert!(matches!(
        decode_stored_key("html2apk-signing-key-v2", &fields.private_key_pkcs8, &fields.certificate_der),
        Err(KeyError::UnsupportedFormat)
    ));
    assert!(matches!(
        decode_stored_key(&fields.format, "not base64!", "also not"),
        Err(KeyError::PrivateKeyEncoding)
    ));
    assert!(matches!(
        decode_stored_key(&fields.format, "AAECAw=", &fields.certificate_der),
        Err(KeyError::PrivateKeyEncoding)
    ));
    assert!(matches!(
        decode_stored_key(&fields.format, &fields.private_key_pkcs8, "Y2VydA"),
        Err(KeyError::CertificateEncoding)
    ));
    assert!(matches!(
        decode_stored_key(&fields.format, "AAECAw==", &fields.certificate_der),
        Err(KeyError::PrivateKeyInvalid)
    ));
}

#[test]
fn new_keys_are_stored_and_read_back() {
    let fields = new_stored_key(2048, "テスト").unwrap();
    assert_eq!(fields.format, "html2apk-signing-key-v1");
    let (_key, certificate) =
        decode_stored_key(&fields.format, &fields.private_key_pkcs8, &fields.certificate_der).unwrap();
    assert_eq!(certificate[0], 0x30);
    assert!(html2apk::jarsign::certificate_is_readable(&certificate));
}
