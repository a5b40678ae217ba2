//! The stored signing key of a package: its fields as they are written to
//! the key file, and reading them back into a key and a certificate.

use vstd::prelude::*;
use crate::jarsign::{base64_char, base64_encode, base64_standard};
use crate::text::{chars_of, matches_at, occurs_at};

verus! {

/// Why a stored key cannot be used.
#[derive(Debug, Clone, Copy, PartialEq, Eq, Structural)]
pub enum KeyError {
    /// The key file names another format.
    UnsupportedFormat,
    /// The private key is not Base64.
    PrivateKeyEncoding,
    /// The certificate is not Base64.
    CertificateEncoding,
    /// The private key is not an RSA key in PKCS#8.
    PrivateKeyInvalid,
    /// A new key, its PKCS#8 form or its certificate could not be made.
    KeyCreation,
}

/// The format written in every key file.
pub open spec fn key_format() -> Seq<char> {
    "html2apk-signing-key-v1"@
}

/// The organization named in the certificate of a new key.
pub open spec fn key_organization() -> Seq<char> {
    "Html2Apk local signing"@
}

/// Whether `s` is the Base64 text of some bytes.
pub open spec fn is_base64(s: Seq<char>) -> bool {
    exists|d: Seq<u8>| #[trigger] base64_standard(d) == s
}

/// The RSA private key that a PKCS#8 document holds, `None` where the
/// document is no valid RSA private key.
pub uninterp spec fn pkcs8_rsa_private_key(der: Seq<u8>) -> Option<rsa::RsaPrivateKey>;

/// The PKCS#8 document of an RSA private key, `None` where it cannot be
/// written.
pub uninterp spec fn pkcs8_der_of(key: rsa::RsaPrivateKey) -> Option<Seq<u8>>;

/// Calls `base64::Engine::decode` on `base64::engine::general_purpose::STANDARD`.
/// Trusted: that engine requires canonical padding and no trailing bits, so
/// it decodes exactly the texts that `base64_standard` writes, each to the
/// bytes it was written from.
#[verifier::external_body]
fn base64_decode(text: &str) -> (res: Option<Vec<u8>>)
    ensures
        match res {
            Some(d) => base64_standard(d@) == text@,
            None => !is_base64(text@),
        },
{
    base64::Engine::decode(&base64::engine::general_purpose::STANDARD, text).ok()
}

/// Calls `rsa::pkcs8::DecodePrivateKey::from_pkcs8_der`. Trusted: the parse
/// depends on the document alone, and its outcome is the one
/// `pkcs8_rsa_private_key` names.
#[verifier::external_body]
fn parse_pkcs8_key(der: &[u8]) -> (res: Option<rsa::RsaPrivateKey>)
    ensures
        res == pkcs8_rsa_private_key(der@),
{
    <rsa::RsaPrivateKey as rsa::pkcs8::DecodePrivateKey>::from_pkcs8_der(der).ok()
}

/// Calls `rsa::RsaPrivateKey::new` with the operating system's random
/// numbers. Trusted with nothing stated: the key is random.
#[verifier::external_body]
fn generate_rsa_key(bits: usize) -> (res: Option<rsa::RsaPrivateKey>) {
    rsa::RsaPrivateKey::new(&mut rand::rngs::OsRng, bits).ok()
}

/// Calls `rsa::pkcs8::EncodePrivateKey::to_pkcs8_der`. Trusted: the
/// document depends on the key alone, and is the one `pkcs8_der_of` names.
#[verifier::external_body]
fn encode_pkcs8_key(key: &rsa::RsaPrivateKey) -> (res: Option<Vec<u8>>)
    ensures
        match res {
            Some(d) => pkcs8_der_of(*key) == Some(d@),
            None => pkcs8_der_of(*key) is None,
        },
{
    match rsa::pkcs8::EncodePrivateKey::to_pkcs8_der(key) {
        Ok(document) => Some(document.as_bytes().to_vec()),
        Err(_) => None,
    }
}

/// Makes a self-signed certificate (RSA PKCS#1 v1.5 with SHA-256) for the
/// key in the PKCS#8 document `private_der`, naming `common_name` and
/// `organization`, with `rcgen`: `KeyPair::from_pkcs8_der_and_sign_algo`,
/// then `CertificateParams::self_signed`. Trusted with nothing stated of
/// the certificate's bytes.
#[verifier::external_body]
fn self_signed_certificate(private_der: &[u8], common_name: &str, organization: &str) -> (res: Option<Vec<u8>>) {
    let key = rustls_pki_types::PrivatePkcs8KeyDer::from(private_der.to_vec());
    let pair = rcgen::KeyPair::from_pkcs8_der_and_sign_algo(&key, &rcgen::PKCS_RSA_SHA256).ok()?;
    let mut params = rcgen::CertificateParams::new(Vec::<String>::new()).ok()?;
    let mut name = rcgen::DistinguishedName::new();
    name.push(rcgen::DnType::CommonName, common_name);
    name.push(rcgen::DnType::OrganizationName, organization);
    params.distinguished_name = name;
    Some(params.self_signed(&pair).ok()?.der().to_vec())
}

/// The fields of a key file.
pub struct StoredKeyFields {
    pub format: String,
    pub private_key_pkcs8: String,
    pub certificate_der: String,
}

/// The fields written for a key whose PKCS#8 document is `private_der` and
/// whose certificate is `certificate_der`: the format and both in Base64.
pub fn stored_key_fields(private_der: &[u8], certificate_der: &[u8]) -> (fields: StoredKeyFields)
    ensures
        fields.format@ == key_format(),
        fields.private_key_pkcs8@ == base64_standard(private_der@),
        fields.certificate_der@ == base64_standard(certificate_der@),
{
    let format = String::from_str("html2apk-signing-key-v1");
    proof {
        reveal_strlit("html2apk-signing-key-v1");
    }
    StoredKeyFields {
        format,
        private_key_pkcs8: base64_encode(private_der),
        certificate_der: base64_encode(certificate_der),
    }
}

/// A new signing key of `bits` bits with a self-signed certificate naming
/// `common_name`, as the fields of its key file.
pub fn new_stored_key(bits: usize, common_name: &str) -> (res: Result<StoredKeyFields, KeyError>)
    ensures
        match res {
            Ok(fields) => {
                &&& fields.format@ == key_format()
                &&& exists|key: rsa::RsaPrivateKey, der: Seq<u8>|
                    #![trigger pkcs8_der_of(key), base64_standard(der)]
                    pkcs8_der_of(key) == Some(der) && fields.private_key_pkcs8@
                        == base64_standard(der)
                &&& is_base64(fields.certificate_der@)
            },
            Err(e) => e == KeyError::KeyCreation,
        },
{
    let key = match generate_rsa_key(bits) {
        Some(k) => k,
        None => {
            return Err(KeyError::KeyCreation);
        },
    };
    let private_der = match encode_pkcs8_key(&key) {
        Some(d) => d,
        None => {
            return Err(KeyError::KeyCreation);
        },
    };
    let certificate = match self_signed_certificate(
        private_der.as_slice(),
        common_name,
        "Html2Apk local signing",
    ) {
        Some(c) => c,
        None => {
            return Err(KeyError::KeyCreation);
        },
    };
    let fields = stored_key_fields(private_der.as_slice(), certificate.as_slice());
    assert(pkcs8_der_of(key) == Some(private_der@));
    assert(base64_standard(certificate@) == fields.certificate_der@);
    Ok(fields)
}

/// Whether `format` is the format of the key files.
fn is_key_format(format: &str) -> (b: bool)
    ensures
        b == (format@ == key_format()),
{
    let s = chars_of(format);
    let expected = chars_of("html2apk-signing-key-v1");
    proof {
        reveal_strlit("html2apk-signing-key-v1");
    }
    let same = s.len() == expected.len() && matches_at(&s, 0, &expected);
    proof {
        if s@.len() == expected@.len() {
            assert(s@.subrange(0, expected@.len() as int) =~= s@);
        }
    }
    same
}

/// Reads back the fields of a key file: the format must be this one, both
/// fields Base64, and the private key an RSA key in PKCS#8. Gives the key
/// and the certificate (DER).
pub fn decode_stored_key(format: &str, private_key_pkcs8: &str, certificate_der: &str) -> (res: Result<
    (rsa::RsaPrivateKey, Vec<u8>),
    KeyError,
>)
    ensures
        format@ != key_format() ==> res == Err::<(rsa::RsaPrivateKey, Vec<u8>), KeyError>(
            KeyError::UnsupportedFormat,
        ),
        format@ == key_format() ==> match res {
            Ok((key, certificate)) => exists|der: Seq<u8>|
                #[trigger] base64_standard(der) == private_key_pkcs8@ && pkcs8_rsa_private_key(der)
                    == Some(key) && base64_standard(certificate@) == certificate_der@,
            Err(e) => {
                ||| e == KeyError::PrivateKeyEncoding && !is_base64(private_key_pkcs8@)
                ||| e == KeyError::CertificateEncoding && is_base64(private_key_pkcs8@) && !is_base64(
                    certificate_der@,
                )
                ||| e == KeyError::PrivateKeyInvalid && is_base64(certificate_der@) && forall|
                    der: Seq<u8>,
                | #[trigger] base64_standard(der) == private_key_pkcs8@ ==> pkcs8_rsa_private_key(der)
                    is None
            },
        },
{
    if !is_key_format(format) {
        return Err(KeyError::UnsupportedFormat);
    }
    let private_der = match base64_decode(private_key_pkcs8) {
        Some(d) => d,
        None => {
            return Err(KeyError::PrivateKeyEncoding);
        },
    };
    let certificate = match base64_decode(certificate_der) {
        Some(c) => c,
        None => {
            return Err(KeyError::CertificateEncoding);
        },
    };
    match parse_pkcs8_key(private_der.as_slice()) {
        Some(key) => Ok((key, certificate)),
        None => {
            proof {
                lemma_base64_injective_at(private_der@, private_key_pkcs8@);
            }
            Err(KeyError::PrivateKeyInvalid)
        },
    }
}

proof fn lemma_base64_char_injective(a: int, b: int)
    requires
        0 <= a < 64,
        0 <= b < 64,
        base64_char(a) == base64_char(b),
    ensures
        a == b,
{
    let ca = base64_char(a) as int;
    let cb = base64_char(b) as int;
    assert(ca == cb);
}

proof fn lemma_base64_char_not_pad(a: int)
    requires
        0 <= a < 64,
    ensures
        base64_char(a) != '=',
{
    assert(base64_char(a) as int != '=' as int);
}

proof fn lemma_groups_equal(a0: u8, a1: u8, a2: u8, b0: u8, b1: u8, b2: u8)
    by (bit_vector)
    requires
        a0 / 4 == b0 / 4,
        (a0 % 4) * 16 + a1 / 16 == (b0 % 4) * 16 + b1 / 16,
        (a1 % 16) * 4 + a2 / 64 == (b1 % 16) * 4 + b2 / 64,
        a2 % 64 == b2 % 64,
    ensures
        a0 == b0,
        a1 == b1,
        a2 == b2,
{
}

proof fn lemma_group_two_equal(a0: u8, a1: u8, b0: u8, b1: u8)
    by (bit_vector)
    requires
        a0 / 4 == b0 / 4,
        (a0 % 4) * 16 + a1 / 16 == (b0 % 4) * 16 + b1 / 16,
        (a1 % 16) * 4 == (b1 % 16) * 4,
    ensures
        a0 == b0,
        a1 == b1,
{
}

proof fn lemma_group_one_equal(a0: u8, b0: u8)
    by (bit_vector)
    requires
        a0 / 4 == b0 / 4,
        (a0 % 4) * 16 == (b0 % 4) * 16,
    ensures
        a0 == b0,
{
}

/// Base64 text is written from one sequence of bytes only: two sequences
/// with the same Base64 text are the same.
pub proof fn lemma_base64_injective(d1: Seq<u8>, d2: Seq<u8>)
    requires
        base64_standard(d1) == base64_standard(d2),
    ensures
        d1 == d2,
    decreases d1.len(),
{
    let t = base64_standard(d1);
    if d1.len() == 0 || d2.len() == 0 {
        if d1.len() != 0 || d2.len() != 0 {
            assert(base64_standard(d1).len() != base64_standard(d2).len());
        }
        assert(d1 =~= d2);
    } else {
        assert(t[0] == base64_standard(d2)[0]);
        assert(t[1] == base64_standard(d2)[1]);
        assert(t[2] == base64_standard(d2)[2]);
        assert(t[3] == base64_standard(d2)[3]);
        lemma_base64_char_injective(d1[0] as int / 4, d2[0] as int / 4);
        if d1.len() >= 3 && d2.len() >= 3 {
            lemma_base64_char_injective(
                (d1[0] as int % 4) * 16 + d1[1] as int / 16,
                (d2[0] as int % 4) * 16 + d2[1] as int / 16,
            );
            lemma_base64_char_injective(
                (d1[1] as int % 16) * 4 + d1[2] as int / 64,
                (d2[1] as int % 16) * 4 + d2[2] as int / 64,
            );
            lemma_base64_char_injective(d1[2] as int % 64, d2[2] as int % 64);
            lemma_groups_equal(d1[0], d1[1], d1[2], d2[0], d2[1], d2[2]);
            assert(base64_standard(d1.skip(3)) =~= t.skip(4));
            assert(base64_standard(d2.skip(3)) =~= base64_standard(d2).skip(4));
            lemma_base64_injective(d1.skip(3), d2.skip(3));
            assert(d1 =~= d2) by {
                assert forall|i: int| 0 <= i < d1.len() implies d1[i] == d2[i] by {
                    if i >= 3 {
                        assert(d1[i] == d1.skip(3)[i - 3]);
                        assert(d2[i] == d2.skip(3)[i - 3]);
                    }
                }
            }
        } else if d1.len() >= 3 {
            lemma_base64_char_not_pad(d1[2] as int % 64);
            if d2.len() == 2 {
            } else {
                lemma_base64_char_not_pad((d1[1] as int % 16) * 4 + d1[2] as int / 64);
            }
        } else if d2.len() >= 3 {
            lemma_base64_char_not_pad(d2[2] as int % 64);
            if d1.len() == 2 {
            } else {
                lemma_base64_char_not_pad((d2[1] as int % 16) * 4 + d2[2] as int / 64);
            }
        } else if d1.len() == 2 && d2.len() == 2 {
            lemma_base64_char_injective(
                (d1[0] as int % 4) * 16 + d1[1] as int / 16,
                (d2[0] as int % 4) * 16 + d2[1] as int / 16,
            );
            lemma_base64_char_injective((d1[1] as int % 16) * 4, (d2[1] as int % 16) * 4);
            lemma_group_two_equal(d1[0], d1[1], d2[0], d2[1]);
            assert(d1 =~= d2);
        } else if d1.len() == 1 && d2.len() == 1 {
            lemma_base64_char_injective((d1[0] as int % 4) * 16, (d2[0] as int % 4) * 16);
            lemma_group_one_equal(d1[0], d2[0]);
            assert(d1 =~= d2);
        } else if d1.len() == 1 {
            lemma_base64_char_not_pad((d2[1] as int % 16) * 4);
        } else {
            lemma_base64_char_not_pad((d1[1] as int % 16) * 4);
        }
    }
}

proof fn lemma_base64_injective_at(d: Seq<u8>, text: Seq<char>)
    requires
        base64_standard(d) == text,
    ensures
        forall|e: Seq<u8>| #[trigger] base64_standard(e) == text ==> e == d,
{
    assert forall|e: Seq<u8>| #[trigger] base64_standard(e) == text implies e == d by {
        lemma_base64_injective(e, d);
    }
}

} // verus!
