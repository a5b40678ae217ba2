//! The JAR signature (v1 signature) of an App Bundle: META-INF/MANIFEST.MF,
//! META-INF/CERT.SF and META-INF/CERT.RSA, the last a PKCS#7 SignedData in
//! DER built here around the certificate and the RSA signature.

use vstd::prelude::*;
use vstd::utf8::{encode_utf8, is_char_boundary, length_of_first_scalar, valid_utf8};

verus! {

/// Why a JAR signature could not be made.
#[derive(Debug, Clone, Copy, PartialEq, Eq, Structural)]
pub enum JarError {
    DerTooShort,
    DerLengthMissing,
    DerLengthForm,
    DerLengthTruncated,
    CertificateInvalid,
    TbsInvalid,
    TbsTooShort,
    SerialMissing,
    IssuerMissing,
    SigningFailed,
}

// ---------------------------------------------------------------------------
// DER
// ---------------------------------------------------------------------------

/// The big-endian bytes of `n > 0` without leading zeros.
pub open spec fn be_minimal(n: nat) -> Seq<u8>
    decreases n,
{
    if n < 256 {
        seq![n as u8]
    } else {
        be_minimal(n / 256).push((n % 256) as u8)
    }
}

/// The DER length octets of a content length.
pub open spec fn der_length(len: nat) -> Seq<u8> {
    if len < 0x80 {
        seq![len as u8]
    } else {
        seq![(0x80 + be_minimal(len).len()) as u8] + be_minimal(len)
    }
}

/// One DER TLV.
pub open spec fn spec_der(tag: u8, content: Seq<u8>) -> Seq<u8> {
    seq![tag] + der_length(content.len()) + content
}

proof fn lemma_be_minimal_len(n: nat, k: nat)
    requires
        n < pow256(k),
        k >= 1,
    ensures
        be_minimal(n).len() <= k,
    decreases n,
{
    if n >= 256 {
        if k == 1 {
            assert(pow256(0) == 1);
        } else {
            lemma_be_minimal_len(n / 256, (k - 1) as nat);
        }
    }
}

proof fn lemma_pow256_8()
    ensures
        pow256(7) == 0x100_0000_0000_0000,
        pow256(8) == 0x1_0000_0000_0000_0000,
{
    assert(pow256(0) == 1);
    assert(pow256(1) == 0x100);
    assert(pow256(2) == 0x1_0000);
    assert(pow256(3) == 0x100_0000);
    assert(pow256(4) == 0x1_0000_0000);
    assert(pow256(5) == 0x100_0000_0000);
    assert(pow256(6) == 0x1_0000_0000_0000);
    assert(pow256(7) == 0x100_0000_0000_0000);
    assert(pow256(8) == 0x1_0000_0000_0000_0000);
}

fn push_be_minimal(n: usize, out: &mut Vec<u8>)
    requires
        n > 0,
    ensures
        final(out)@ == old(out)@ + be_minimal(n as nat),
    decreases n,
{
    if n >= 256 {
        push_be_minimal(n / 256, out);
    }
    out.push((n % 256) as u8);
    assert(out@ =~= old(out)@ + be_minimal(n as nat));
}

/// Builds one DER TLV.
pub fn der(tag: u8, content: &[u8]) -> (out: Vec<u8>)
    ensures
        out@ == spec_der(tag, content@),
{
    let mut out: Vec<u8> = Vec::new();
    out.push(tag);
    let len = content.len();
    if len < 0x80 {
        out.push(len as u8);
    } else {
        let mut digits: Vec<u8> = Vec::new();
        push_be_minimal(len, &mut digits);
        proof {
            lemma_pow256_8();
            lemma_be_minimal_len(len as nat, 8);
        }
        out.push(0x80 + digits.len() as u8);
        out.extend_from_slice(digits.as_slice());
    }
    out.extend_from_slice(content);
    assert(out@ =~= spec_der(tag, content@));
    out
}

/// The value of big-endian bytes.
pub open spec fn be_value(b: Seq<u8>) -> nat
    decreases b.len(),
{
    if b.len() == 0 {
        0
    } else {
        be_value(b.drop_last()) * 256 + b.last() as nat
    }
}

pub open spec fn pow256(i: nat) -> nat
    decreases i,
{
    if i == 0 {
        1
    } else {
        pow256((i - 1) as nat) * 256
    }
}

proof fn lemma_be_value_bound(b: Seq<u8>)
    ensures
        be_value(b) < pow256(b.len()),
    decreases b.len(),
{
    if b.len() > 0 {
        lemma_be_value_bound(b.drop_last());
    }
}

/// Reading the tag and length of the TLV at `offset`: the tag, the header
/// length and the content length.
pub open spec fn spec_read_tlv(b: Seq<u8>, offset: int) -> Result<(u8, int, int), JarError> {
    if offset >= b.len() {
        Err(JarError::DerTooShort)
    } else if offset + 1 >= b.len() {
        Err(JarError::DerLengthMissing)
    } else if b[offset + 1] < 0x80 {
        Ok((b[offset], 2, b[offset + 1] as int))
    } else {
        let count = b[offset + 1] - 0x80;
        if count == 0 || count > 8 {
            Err(JarError::DerLengthForm)
        } else if offset + 2 + count > b.len() {
            Err(JarError::DerLengthTruncated)
        } else {
            Ok((b[offset], 2 + count, (be_value(b.subrange(offset + 2, offset + 2 + count)) % (usize::MAX as nat + 1)) as int))
        }
    }
}

/// Reads the tag, the header length and the content length of the TLV at `offset`.
pub fn read_tlv(bytes: &[u8], offset: usize) -> (res: Result<(u8, usize, usize), JarError>)
    ensures
        match res {
            Ok((t, h, l)) => spec_read_tlv(bytes@, offset as int) == Ok::<(u8, int, int), JarError>(
                (t, h as int, l as int),
            ),
            Err(e) => spec_read_tlv(bytes@, offset as int) == Err::<(u8, int, int), JarError>(e),
        },
{
    let n = bytes.len();
    if offset >= n {
        return Err(JarError::DerTooShort);
    }
    let tag = bytes[offset];
    if offset + 1 >= n {
        return Err(JarError::DerLengthMissing);
    }
    let first = bytes[offset + 1];
    if first < 0x80 {
        return Ok((tag, 2, first as usize));
    }
    let count = (first - 0x80) as usize;
    if count == 0 || count > 8 {
        return Err(JarError::DerLengthForm);
    }
    let mut value: u64 = 0;
    let mut i: usize = 0;
    proof {
        lemma_pow256_8();
    }
    while i < count
        invariant
            i <= count <= 8,
            1 <= count,
            n == bytes@.len(),
            offset + 1 < n,
            bytes@[offset + 1] >= 0x80,
            count == bytes@[offset + 1] - 0x80,
            tag == bytes@[offset as int],
            pow256(8) == 0x1_0000_0000_0000_0000,
            pow256(7) == 0x100_0000_0000_0000,
            offset + 2 + i <= n,
            value == be_value(bytes@.subrange(offset + 2, offset + 2 + i)),
        decreases count - i,
    {
        if offset + 2 + i >= n {
            return Err(JarError::DerLengthTruncated);
        }
        let byte = bytes[offset + 2 + i];
        proof {
            let prefix = bytes@.subrange(offset + 2, offset + 2 + i);
            lemma_be_value_bound(prefix);
            lemma_pow256_mono(i as nat, 7);
            assert(bytes@.subrange(offset + 2, offset + 2 + i + 1).drop_last() =~= prefix);
        }
        value = value * 256 + byte as u64;
        i = i + 1;
    }
    assert(bytes@.subrange(offset + 2, offset + 2 + i) == bytes@.subrange(offset + 2, offset + 2 + count));
    let length = if value <= usize::MAX as u64 {
        proof {
            vstd::arithmetic::div_mod::lemma_small_mod(value as nat, usize::MAX as nat + 1);
        }
        value as usize
    } else {
        (value % (usize::MAX as u64 + 1)) as usize
    };
    Ok((tag, 2 + count, length))
}

proof fn lemma_pow256_mono(i: nat, j: nat)
    requires
        i <= j,
    ensures
        pow256(i) <= pow256(j),
    decreases j,
{
    if i < j {
        lemma_pow256_mono(i, (j - 1) as nat);
    }
}

// ---------------------------------------------------------------------------
// Issuer and serial number of the certificate
// ---------------------------------------------------------------------------

/// What reading the issuer and serial number of a certificate comes to.
pub enum CertFields {
    /// The issuer Name TLV and the serialNumber TLV.
    Found(Seq<u8>, Seq<u8>),
    Failed(JarError),
    /// An offset overflows or a field runs past the end of the certificate;
    /// the reading panics there.
    Panics,
}

/// From the issuer on: skip the signature algorithm, then the issuer Name.
pub open spec fn spec_cert_issuer(c: Seq<u8>, pos: int, serial: Seq<u8>) -> CertFields {
    match spec_read_tlv(c, pos) {
        Err(e) => CertFields::Failed(e),
        Ok((_, fh, fl)) => if pos + fh + fl > usize::MAX {
            CertFields::Panics
        } else {
            let p2 = pos + fh + fl;
            match spec_read_tlv(c, p2) {
                Err(e) => CertFields::Failed(e),
                Ok((t, fh2, fl2)) => if t != 0x30 {
                    CertFields::Failed(JarError::IssuerMissing)
                } else if p2 + fh2 + fl2 > usize::MAX || p2 + fh2 + fl2 > c.len() {
                    CertFields::Panics
                } else {
                    CertFields::Found(c.subrange(p2, p2 + fh2 + fl2), serial)
                },
            }
        },
    }
}

/// From the serial number on.
pub open spec fn spec_cert_serial(c: Seq<u8>, pos: int) -> CertFields {
    match spec_read_tlv(c, pos) {
        Err(e) => CertFields::Failed(e),
        Ok((t, fh, fl)) => if t != 0x02 {
            CertFields::Failed(JarError::SerialMissing)
        } else if pos + fh + fl > usize::MAX || pos + fh + fl > c.len() {
            CertFields::Panics
        } else {
            spec_cert_issuer(c, pos + fh + fl, c.subrange(pos, pos + fh + fl))
        },
    }
}

/// Reading the issuer Name and the serialNumber of an X.509 certificate in
/// DER: the outer SEQUENCE, tbsCertificate, an optional [0] version, the
/// serial number, the signature algorithm and the issuer.
pub open spec fn spec_issuer_and_serial(c: Seq<u8>) -> CertFields {
    match spec_read_tlv(c, 0) {
        Err(e) => CertFields::Failed(e),
        Ok((tag, header, length)) => if tag != 0x30 {
            CertFields::Failed(JarError::CertificateInvalid)
        } else if header + length > usize::MAX {
            CertFields::Panics
        } else {
            match spec_read_tlv(c, header) {
                Err(e) => CertFields::Failed(e),
                Ok((tag2, tbs_header, _)) => if tag2 != 0x30 {
                    CertFields::Failed(JarError::TbsInvalid)
                } else if header + tbs_header >= header + length {
                    CertFields::Failed(JarError::TbsTooShort)
                } else {
                    let pos = header + tbs_header;
                    match spec_read_tlv(c, pos) {
                        Err(e) => CertFields::Failed(e),
                        Ok((t, fh, fl)) => if t == 0xA0 {
                            if pos + fh + fl > usize::MAX {
                                CertFields::Panics
                            } else {
                                spec_cert_serial(c, pos + fh + fl)
                            }
                        } else {
                            spec_cert_serial(c, pos)
                        },
                    }
                },
            }
        },
    }
}

/// Why reading the certificate stopped.
pub enum CertStop {
    Failed(JarError),
    Panics,
}

fn issuer_tlv(certificate: &[u8], position: usize, serial: Vec<u8>) -> (res: Result<
    (Vec<u8>, Vec<u8>),
    CertStop,
>)
    ensures
        match spec_cert_issuer(certificate@, position as int, serial@) {
            CertFields::Found(i, s) => res matches Ok((ri, rs)) && ri@ == i && rs@ == s,
            CertFields::Failed(e) => res matches Err(CertStop::Failed(e2)) && e2 == e,
            CertFields::Panics => res matches Err(CertStop::Panics),
        },
{
    let (_, fh, fl) = match read_tlv(certificate, position) {
        Ok(v) => v,
        Err(e) => {
            return Err(CertStop::Failed(e));
        },
    };
    if fh > usize::MAX - position || fl > usize::MAX - position - fh {
        return Err(CertStop::Panics);
    }
    let p2 = position + fh + fl;
    let (tag, fh2, fl2) = match read_tlv(certificate, p2) {
        Ok(v) => v,
        Err(e) => {
            return Err(CertStop::Failed(e));
        },
    };
    if tag != 0x30 {
        return Err(CertStop::Failed(JarError::IssuerMissing));
    }
    if fh2 > usize::MAX - p2 || fl2 > usize::MAX - p2 - fh2 || p2 + fh2 + fl2 > certificate.len() {
        return Err(CertStop::Panics);
    }
    let issuer = vstd::slice::slice_to_vec(&certificate[p2..p2 + fh2 + fl2]);
    Ok((issuer, serial))
}

fn serial_tlv(certificate: &[u8], position: usize) -> (res: Result<(Vec<u8>, Vec<u8>), CertStop>)
    ensures
        match spec_cert_serial(certificate@, position as int) {
            CertFields::Found(i, s) => res matches Ok((ri, rs)) && ri@ == i && rs@ == s,
            CertFields::Failed(e) => res matches Err(CertStop::Failed(e2)) && e2 == e,
            CertFields::Panics => res matches Err(CertStop::Panics),
        },
{
    let (tag, fh, fl) = match read_tlv(certificate, position) {
        Ok(v) => v,
        Err(e) => {
            return Err(CertStop::Failed(e));
        },
    };
    if tag != 0x02 {
        return Err(CertStop::Failed(JarError::SerialMissing));
    }
    if fh > usize::MAX - position || fl > usize::MAX - position - fh || position + fh + fl
        > certificate.len() {
        return Err(CertStop::Panics);
    }
    let serial = vstd::slice::slice_to_vec(&certificate[position..position + fh + fl]);
    issuer_tlv(certificate, position + fh + fl, serial)
}

/// Takes the issuer Name and the serialNumber TLVs out of a certificate in DER.
fn issuer_and_serial(certificate: &[u8]) -> (res: Result<(Vec<u8>, Vec<u8>), CertStop>)
    ensures
        match spec_issuer_and_serial(certificate@) {
            CertFields::Found(i, s) => res matches Ok((ri, rs)) && ri@ == i && rs@ == s,
            CertFields::Failed(e) => res matches Err(CertStop::Failed(e2)) && e2 == e,
            CertFields::Panics => res matches Err(CertStop::Panics),
        },
{
    let (tag, header, length) = match read_tlv(certificate, 0) {
        Ok(v) => v,
        Err(e) => {
            return Err(CertStop::Failed(e));
        },
    };
    if tag != 0x30 {
        return Err(CertStop::Failed(JarError::CertificateInvalid));
    }
    if length > usize::MAX - header {
        return Err(CertStop::Panics);
    }
    let end = header + length;
    let (tag, tbs_header, _) = match read_tlv(certificate, header) {
        Ok(v) => v,
        Err(e) => {
            return Err(CertStop::Failed(e));
        },
    };
    if tag != 0x30 {
        return Err(CertStop::Failed(JarError::TbsInvalid));
    }
    let position = header + tbs_header;
    if position >= end {
        return Err(CertStop::Failed(JarError::TbsTooShort));
    }
    let (tag, fh, fl) = match read_tlv(certificate, position) {
        Ok(v) => v,
        Err(e) => {
            return Err(CertStop::Failed(e));
        },
    };
    if tag == 0xA0 {
        if fh > usize::MAX - position || fl > usize::MAX - position - fh {
            return Err(CertStop::Panics);
        }
        serial_tlv(certificate, position + fh + fl)
    } else {
        serial_tlv(certificate, position)
    }
}

// ---------------------------------------------------------------------------
// PKCS#7 SignedData
// ---------------------------------------------------------------------------

pub open spec fn oid_signed_data() -> Seq<u8> {
    seq![0x06u8, 0x09, 0x2A, 0x86, 0x48, 0x86, 0xF7, 0x0D, 0x01, 0x07, 0x02]
}

pub open spec fn oid_data() -> Seq<u8> {
    seq![0x06u8, 0x09, 0x2A, 0x86, 0x48, 0x86, 0xF7, 0x0D, 0x01, 0x07, 0x01]
}

pub open spec fn oid_sha256() -> Seq<u8> {
    seq![0x06u8, 0x09, 0x60, 0x86, 0x48, 0x01, 0x65, 0x03, 0x04, 0x02, 0x01]
}

pub open spec fn oid_rsa() -> Seq<u8> {
    seq![0x06u8, 0x09, 0x2A, 0x86, 0x48, 0x86, 0xF7, 0x0D, 0x01, 0x01, 0x01]
}

pub open spec fn der_null() -> Seq<u8> {
    seq![0x05u8, 0x00]
}

/// INTEGER 1.
pub open spec fn version_one() -> Seq<u8> {
    seq![0x02u8, 0x01, 0x01]
}

/// The PKCS#7 SignedData (no content) around `certificate`, with one
/// SignerInfo naming the certificate by `issuer` and `serial` and holding
/// the SHA-256 with RSA `signature`.
pub open spec fn spec_pkcs7(certificate: Seq<u8>, signature: Seq<u8>, issuer: Seq<u8>, serial: Seq<u8>) -> Seq<u8> {
    let alg_sha256 = spec_der(0x30, oid_sha256() + der_null());
    let alg_rsa = spec_der(0x30, oid_rsa() + der_null());
    let signer_info = spec_der(
        0x30,
        version_one() + spec_der(0x30, issuer + serial) + alg_sha256 + alg_rsa + spec_der(
            0x04,
            signature,
        ),
    );
    let signed_data = spec_der(
        0x30,
        version_one() + spec_der(0x31, alg_sha256) + spec_der(0x30, oid_data()) + spec_der(
            0xA0,
            certificate,
        ) + spec_der(0x31, signer_info),
    );
    spec_der(0x30, oid_signed_data() + spec_der(0xA0, signed_data))
}

/// Building the PKCS#7 block of a certificate and a signature.
pub open spec fn spec_build_pkcs7(certificate: Seq<u8>, signature: Seq<u8>) -> CertFields {
    match spec_issuer_and_serial(certificate) {
        CertFields::Found(issuer, serial) => CertFields::Found(
            spec_pkcs7(certificate, signature, issuer, serial),
            Seq::empty(),
        ),
        other => other,
    }
}

fn cat2(a: &[u8], b: &[u8]) -> (out: Vec<u8>)
    ensures
        out@ == a@ + b@,
{
    let mut out: Vec<u8> = Vec::new();
    out.extend_from_slice(a);
    out.extend_from_slice(b);
    assert(out@ =~= a@ + b@);
    out
}

fn cat5(a: &[u8], b: &[u8], c: &[u8], d: &[u8], e: &[u8]) -> (out: Vec<u8>)
    ensures
        out@ == a@ + b@ + c@ + d@ + e@,
{
    let mut out: Vec<u8> = Vec::new();
    out.extend_from_slice(a);
    out.extend_from_slice(b);
    out.extend_from_slice(c);
    out.extend_from_slice(d);
    out.extend_from_slice(e);
    assert(out@ =~= a@ + b@ + c@ + d@ + e@);
    out
}

fn bytes_of(values: &[u8]) -> (out: Vec<u8>)
    ensures
        out@ == values@,
{
    vstd::slice::slice_to_vec(values)
}

fn build_pkcs7(certificate_der: &[u8], signature: &[u8]) -> (res: Result<Vec<u8>, CertStop>)
    ensures
        match spec_build_pkcs7(certificate_der@, signature@) {
            CertFields::Found(p, _) => res matches Ok(v) && v@ == p,
            CertFields::Failed(e) => res matches Err(CertStop::Failed(e2)) && e2 == e,
            CertFields::Panics => res matches Err(CertStop::Panics),
        },
{
    let (issuer, serial) = issuer_and_serial(certificate_der)?;
    let null = bytes_of(&[0x05, 0x00]);
    let oid_sha = bytes_of(&[0x06, 0x09, 0x60, 0x86, 0x48, 0x01, 0x65, 0x03, 0x04, 0x02, 0x01]);
    let oid_rsa_enc = bytes_of(&[0x06, 0x09, 0x2A, 0x86, 0x48, 0x86, 0xF7, 0x0D, 0x01, 0x01, 0x01]);
    let oid_dat = bytes_of(&[0x06, 0x09, 0x2A, 0x86, 0x48, 0x86, 0xF7, 0x0D, 0x01, 0x07, 0x01]);
    let oid_sd = bytes_of(&[0x06, 0x09, 0x2A, 0x86, 0x48, 0x86, 0xF7, 0x0D, 0x01, 0x07, 0x02]);
    let version = bytes_of(&[0x02, 0x01, 0x01]);
    assert(null@ =~= der_null());
    assert(oid_sha@ =~= oid_sha256());
    assert(oid_rsa_enc@ =~= oid_rsa());
    assert(oid_dat@ =~= oid_data());
    assert(oid_sd@ =~= oid_signed_data());
    assert(version@ =~= version_one());
    let alg_sha256 = der(0x30, cat2(&oid_sha, &null).as_slice());
    let alg_rsa = der(0x30, cat2(&oid_rsa_enc, &null).as_slice());
    let issuer_serial = der(0x30, cat2(&issuer, &serial).as_slice());
    let signature_tlv = der(0x04, signature);
    let signer_info = der(
        0x30,
        cat5(&version, &issuer_serial, &alg_sha256, &alg_rsa, &signature_tlv).as_slice(),
    );
    let digest_algorithms = der(0x31, alg_sha256.as_slice());
    let content_info = der(0x30, oid_dat.as_slice());
    let certificates = der(0xA0, certificate_der);
    let signer_infos = der(0x31, signer_info.as_slice());
    let signed_data = der(
        0x30,
        cat5(&version, &digest_algorithms, &content_info, &certificates, &signer_infos).as_slice(),
    );
    let wrapped = der(0xA0, signed_data.as_slice());
    let out = der(0x30, cat2(&oid_sd, &wrapped).as_slice());
    Ok(out)
}

// ---------------------------------------------------------------------------
// Manifest lines
// ---------------------------------------------------------------------------

/// The largest character boundary of `b` that is at most `c`.
pub open spec fn greedy_cut(b: Seq<u8>, c: int) -> int
    decreases c,
{
    if c <= 0 {
        0
    } else if is_char_boundary(b, c) {
        c
    } else {
        greedy_cut(b, c - 1)
    }
}

/// The JAR line wrapping of `b`: lines of at most 72 bytes with CRLF, the
/// first holding at most 70 bytes of `b`, each further one a space and at
/// most 69 bytes; lines are cut at character boundaries only.
pub open spec fn wrap_bytes(b: Seq<u8>, first: bool) -> Seq<u8>
    decreases b.len(),
{
    if b.len() == 0 {
        Seq::empty()
    } else {
        let limit: int = if first {
            70
        } else {
            69
        };
        let cut = greedy_cut(
            b,
            if b.len() < limit {
                b.len() as int
            } else {
                limit
            },
        );
        if cut <= 0 || cut > b.len() {
            Seq::empty()
        } else {
            (if first {
                Seq::empty()
            } else {
                seq![0x20u8]
            }) + b.take(cut) + seq![13u8, 10u8] + wrap_bytes(b.skip(cut), false)
        }
    }
}

/// The bytes of the attribute line `key: value`.
pub open spec fn attribute_line(key: Seq<char>, value: Seq<char>) -> Seq<u8> {
    encode_utf8(key + seq![':', ' '] + value)
}

proof fn lemma_first_scalar_boundary(b: Seq<u8>)
    requires
        valid_utf8(b),
        b.len() > 0,
    ensures
        1 <= length_of_first_scalar(b) <= 4,
        length_of_first_scalar(b) <= b.len(),
        is_char_boundary(b, length_of_first_scalar(b)),
{
    let p = vstd::utf8::pop_first_scalar(b);
    assert(valid_utf8(p));
    assert(is_char_boundary(p, 0));
}

proof fn lemma_greedy_cut(b: Seq<u8>, c: int, d: int)
    requires
        0 < d <= c,
        is_char_boundary(b, d),
    ensures
        d <= greedy_cut(b, c) <= c,
        is_char_boundary(b, greedy_cut(b, c)),
    decreases c,
{
    if !is_char_boundary(b, c) {
        lemma_greedy_cut(b, c - 1, d);
    }
}

/// Writes `key: value` as JAR manifest lines.
pub fn wrap_attribute(key: &str, value: &str) -> (out: Vec<u8>)
    ensures
        out@ == wrap_bytes(attribute_line(key@, value@), true),
{
    let mut line = String::from_str(key);
    line.append(": ");
    line.append(value);
    proof {
        reveal_strlit(": ");
        assert(line@ =~= key@ + seq![':', ' '] + value@);
    }
    let ghost all = encode_utf8(line@);
    let mut out: Vec<u8> = Vec::new();
    let mut rest: &str = line.as_str();
    let mut first = true;
    while rest.as_bytes().len() != 0
        invariant
            out@ + wrap_bytes(encode_utf8(rest@), first) == wrap_bytes(all, true),
        decreases encode_utf8(rest@).len(),
    {
        let ghost b = encode_utf8(rest@);
        proof {
            vstd::utf8::encode_utf8_valid_utf8(rest@);
            lemma_first_scalar_boundary(b);
        }
        let len = rest.as_bytes().len();
        let limit: usize = if first {
            70
        } else {
            69
        };
        let start = if len < limit {
            len
        } else {
            limit
        };
        let mut cut = start;
        proof {
            lemma_greedy_cut(b, start as int, length_of_first_scalar(b));
            assert(is_char_boundary(b, 0));
        }
        while !rest.is_char_boundary(cut)
            invariant
                b == encode_utf8(rest@),
                greedy_cut(b, start as int) == greedy_cut(b, cut as int),
                cut <= start,
                valid_utf8(b),
                is_char_boundary(b, 0),
            decreases cut,
        {
            cut = cut - 1;
        }
        proof {
            assert(greedy_cut(b, cut as int) == cut as int);
        }
        let (head, tail) = rest.split_at(cut);
        if !first {
            out.push(0x20);
        }
        out.extend_from_slice(head.as_bytes());
        out.push(13);
        out.push(10);
        proof {
            assert(encode_utf8(head@) =~= b.take(cut as int));
            assert(encode_utf8(tail@) =~= b.skip(cut as int));
        }
        rest = tail;
        first = false;
    }
    out
}

// ---------------------------------------------------------------------------
// Digests, Base64 and the RSA signature
// ---------------------------------------------------------------------------

#[verifier::external_type_specification]
#[verifier::external_body]
pub struct ExRsaPrivateKey(rsa::RsaPrivateKey);

/// The SHA-256 digest of `data`.
pub uninterp spec fn sha256(data: Seq<u8>) -> Seq<u8>;

/// The character of the standard Base64 alphabet for the six bits `v`.
pub open spec fn base64_char(v: int) -> char {
    if v < 26 {
        (65 + v) as char
    } else if v < 52 {
        (97 + v - 26) as char
    } else if v < 62 {
        (48 + v - 52) as char
    } else if v == 62 {
        '+'
    } else {
        '/'
    }
}

/// The Base64 text of `data`, in the standard alphabet and with padding:
/// each group of three bytes becomes four characters, a last group of one
/// or two bytes is padded with '='.
pub open spec fn base64_standard(data: Seq<u8>) -> Seq<char>
    decreases data.len(),
{
    if data.len() == 0 {
        Seq::empty()
    } else if data.len() == 1 {
        seq![base64_char((data[0] as int) / 4), base64_char(((data[0] as int) % 4) * 16), '=', '=']
    } else if data.len() == 2 {
        seq![
            base64_char((data[0] as int) / 4),
            base64_char(((data[0] as int) % 4) * 16 + (data[1] as int) / 16),
            base64_char(((data[1] as int) % 16) * 4),
            '=',
        ]
    } else {
        seq![
            base64_char((data[0] as int) / 4),
            base64_char(((data[0] as int) % 4) * 16 + (data[1] as int) / 16),
            base64_char(((data[1] as int) % 16) * 4 + (data[2] as int) / 64),
            base64_char((data[2] as int) % 64),
        ] + base64_standard(data.skip(3))
    }
}

/// Calls `sha2::Sha256::digest` (through `rsa::sha2`). Trusted: the result is
/// the SHA-256 digest of `data`.
#[verifier::external_body]
pub(crate) fn sha256_digest(data: &[u8]) -> (out: [u8; 32])
    ensures
        out@ == sha256(data@),
{
    <rsa::sha2::Sha256 as rsa::sha2::Digest>::digest(data).into()
}

/// Calls `base64::Engine::encode` on `base64::engine::general_purpose::STANDARD`.
/// Trusted: the result is the Base64 text of `data` in the standard
/// alphabet, with padding, as `base64_standard` spells it out.
#[verifier::external_body]
pub(crate) fn base64_encode(data: &[u8]) -> (out: String)
    ensures
        out@ == base64_standard(data@),
{
    base64::Engine::encode(&base64::engine::general_purpose::STANDARD, data)
}

/// The RSASSA-PKCS1-v1_5 signature with SHA-256 of `message` under `key`,
/// `None` where the RSA operation fails.
pub uninterp spec fn rsa_pkcs1v15_sha256(key: rsa::RsaPrivateKey, message: Seq<u8>) -> Option<Seq<u8>>;

/// Calls `rsa::signature::Signer::try_sign` on
/// `rsa::pkcs1v15::SigningKey::<rsa::sha2::Sha256>::new(key)`. Trusted: the
/// signing is deterministic (it uses no random blinding), so its outcome is
/// the one `rsa_pkcs1v15_sha256` names for the key and the message.
#[verifier::external_body]
fn rsa_sha256_sign(key: rsa::RsaPrivateKey, message: &[u8]) -> (out: Option<Vec<u8>>)
    ensures
        match out {
            Some(v) => rsa_pkcs1v15_sha256(key, message@) == Some(v@),
            None => rsa_pkcs1v15_sha256(key, message@) is None,
        },
{
    let signer = rsa::pkcs1v15::SigningKey::<rsa::sha2::Sha256>::new(key);
    match rsa::signature::Signer::try_sign(&signer, message) {
        Ok(signature) => Some(rsa::signature::SignatureEncoding::to_vec(&signature)),
        Err(_) => None,
    }
}

// ---------------------------------------------------------------------------
// MANIFEST.MF and CERT.SF
// ---------------------------------------------------------------------------

pub open spec fn crlf() -> Seq<u8> {
    seq![13u8, 10u8]
}

/// The main section of MANIFEST.MF.
pub open spec fn manifest_main_section() -> Seq<u8> {
    encode_utf8("Manifest-Version: 1.0\r\nCreated-By: MedjedBuilder\r\n\r\n"@)
}

/// The head of CERT.SF, before its digest lines.
pub open spec fn signature_file_head() -> Seq<u8> {
    encode_utf8("Signature-Version: 1.0\r\nCreated-By: MedjedBuilder\r\n"@)
}

/// One attribute written as manifest lines.
pub open spec fn attribute(key: Seq<char>, value: Seq<char>) -> Seq<u8> {
    wrap_bytes(attribute_line(key, value), true)
}

/// The section of MANIFEST.MF for one entry and its SHA-256 digest.
pub open spec fn manifest_section(name: Seq<char>, digest: Seq<u8>) -> Seq<u8> {
    attribute("Name"@, name) + attribute("SHA-256-Digest"@, base64_standard(digest)) + crlf()
}

/// The per-entry sections of MANIFEST.MF, in the order of the entries.
pub open spec fn manifest_sections(entries: Seq<(String, [u8; 32])>) -> Seq<u8>
    decreases entries.len(),
{
    if entries.len() == 0 {
        Seq::empty()
    } else {
        manifest_sections(entries.drop_last()) + manifest_section(
            entries.last().0@,
            entries.last().1@,
        )
    }
}

/// MANIFEST.MF for the entries.
pub open spec fn manifest_of(entries: Seq<(String, [u8; 32])>) -> Seq<u8> {
    manifest_main_section() + manifest_sections(entries)
}

/// The section of CERT.SF for one entry: the digest of its manifest section.
pub open spec fn signature_file_section(name: Seq<char>, digest: Seq<u8>) -> Seq<u8> {
    attribute("Name"@, name) + attribute(
        "SHA-256-Digest"@,
        base64_standard(sha256(manifest_section(name, digest))),
    ) + crlf()
}

pub open spec fn signature_file_sections(entries: Seq<(String, [u8; 32])>) -> Seq<u8>
    decreases entries.len(),
{
    if entries.len() == 0 {
        Seq::empty()
    } else {
        signature_file_sections(entries.drop_last()) + signature_file_section(
            entries.last().0@,
            entries.last().1@,
        )
    }
}

/// CERT.SF for the entries.
pub open spec fn signature_file_of(entries: Seq<(String, [u8; 32])>) -> Seq<u8> {
    signature_file_head() + attribute(
        "SHA-256-Digest-Manifest"@,
        base64_standard(sha256(manifest_of(entries))),
    ) + attribute(
        "SHA-256-Digest-Manifest-Main-Attributes"@,
        base64_standard(sha256(manifest_main_section())),
    ) + crlf() + signature_file_sections(entries)
}

/// The three files of a JAR signature.
pub struct JarSignature {
    pub manifest: Vec<u8>,
    pub signature_file: Vec<u8>,
    pub pkcs7: Vec<u8>,
}

fn push_crlf(out: &mut Vec<u8>)
    ensures
        final(out)@ == old(out)@ + crlf(),
{
    out.push(13);
    out.push(10);
    assert(out@ =~= old(out)@ + crlf());
}

fn manifest_section_bytes(name: &String, digest: &[u8; 32]) -> (out: Vec<u8>)
    ensures
        out@ == manifest_section(name@, digest@),
{
    let encoded = base64_encode(digest.as_slice());
    let mut out = wrap_attribute("Name", name.as_str());
    let digest_line = wrap_attribute("SHA-256-Digest", encoded.as_str());
    out.extend_from_slice(digest_line.as_slice());
    push_crlf(&mut out);
    assert(out@ =~= manifest_section(name@, digest@));
    out
}

fn signature_file_section_bytes(name: &String, section: &[u8]) -> (out: Vec<u8>)
    ensures
        out@ == attribute("Name"@, name@) + attribute(
            "SHA-256-Digest"@,
            base64_standard(sha256(section@)),
        ) + crlf(),
{
    let digest = sha256_digest(section);
    let encoded = base64_encode(digest.as_slice());
    let mut out = wrap_attribute("Name", name.as_str());
    let digest_line = wrap_attribute("SHA-256-Digest", encoded.as_str());
    out.extend_from_slice(digest_line.as_slice());
    push_crlf(&mut out);
    assert(out@ =~= attribute("Name"@, name@) + attribute(
        "SHA-256-Digest"@,
        base64_standard(sha256(section@)),
    ) + crlf());
    out
}

/// MANIFEST.MF and CERT.SF for the entries written to the archive, each
/// named with the SHA-256 digest of its data.
pub fn manifest_files(entries: &[(String, [u8; 32])]) -> (res: (Vec<u8>, Vec<u8>))
    ensures
        res.0@ == manifest_of(entries@),
        res.1@ == signature_file_of(entries@),
{
    let main_section = "Manifest-Version: 1.0\r\nCreated-By: MedjedBuilder\r\n\r\n".as_bytes();
    let mut manifest: Vec<u8> = Vec::new();
    manifest.extend_from_slice(main_section);
    let mut sections: Vec<u8> = Vec::new();
    let mut i: usize = 0;
    while i < entries.len()
        invariant
            i <= entries@.len(),
            manifest@ == manifest_main_section() + manifest_sections(entries@.take(i as int)),
            sections@ == signature_file_sections(entries@.take(i as int)),
            main_section@ == manifest_main_section(),
        decreases entries@.len() - i,
    {
        let section = manifest_section_bytes(&entries[i].0, &entries[i].1);
        let sf_section = signature_file_section_bytes(&entries[i].0, section.as_slice());
        manifest.extend_from_slice(section.as_slice());
        sections.extend_from_slice(sf_section.as_slice());
        proof {
            assert(entries@.take(i + 1).drop_last() =~= entries@.take(i as int));
            assert(entries@.take(i + 1).last() == entries@[i as int]);
        }
        i = i + 1;
        assert(manifest@ =~= manifest_main_section() + manifest_sections(entries@.take(i as int)));
    }
    assert(entries@.take(i as int) =~= entries@);
    let mut signature_file: Vec<u8> = Vec::new();
    signature_file.extend_from_slice("Signature-Version: 1.0\r\nCreated-By: MedjedBuilder\r\n".as_bytes());
    let manifest_digest = base64_encode(sha256_digest(manifest.as_slice()).as_slice());
    let line = wrap_attribute("SHA-256-Digest-Manifest", manifest_digest.as_str());
    signature_file.extend_from_slice(line.as_slice());
    let main_digest = base64_encode(sha256_digest(main_section).as_slice());
    let line = wrap_attribute("SHA-256-Digest-Manifest-Main-Attributes", main_digest.as_str());
    signature_file.extend_from_slice(line.as_slice());
    push_crlf(&mut signature_file);
    signature_file.extend_from_slice(sections.as_slice());
    assert(signature_file@ =~= signature_file_of(entries@));
    (manifest, signature_file)
}

// ---------------------------------------------------------------------------
// Signing
// ---------------------------------------------------------------------------

/// Whether the issuer and serial number of `certificate` can be read without
/// running past its end; where they cannot, building CERT.RSA panics.
pub fn certificate_is_readable(certificate: &[u8]) -> (b: bool)
    ensures
        b == !(spec_issuer_and_serial(certificate@) is Panics),
{
    match issuer_and_serial(certificate) {
        Err(CertStop::Panics) => false,
        _ => true,
    }
}

/// CERT.RSA: the PKCS#7 SignedData around `certificate_der` with the
/// signature of CERT.SF.
pub fn pkcs7_signed_data(certificate_der: &[u8], signature: &[u8]) -> (res: Result<Vec<u8>, JarError>)
    requires
        !(spec_issuer_and_serial(certificate_der@) is Panics),
    ensures
        match spec_build_pkcs7(certificate_der@, signature@) {
            CertFields::Found(p, _) => res matches Ok(v) && v@ == p,
            CertFields::Failed(e) => res == Err::<Vec<u8>, JarError>(e),
            CertFields::Panics => false,
        },
{
    match build_pkcs7(certificate_der, signature) {
        Ok(v) => Ok(v),
        Err(CertStop::Failed(e)) => Err(e),
        Err(CertStop::Panics) => {
            assert(false);
            Err(JarError::CertificateInvalid)
        },
    }
}

/// Makes the signature files of the entries written to an App Bundle, each
/// named with the SHA-256 digest of its data.
pub fn sign_entries(
    entries: &[(String, [u8; 32])],
    certificate_der: &[u8],
    private_key: rsa::RsaPrivateKey,
) -> (res: Result<JarSignature, JarError>)
    requires
        !(spec_issuer_and_serial(certificate_der@) is Panics),
    ensures
        match res {
            Ok(sig) => {
                &&& sig.manifest@ == manifest_of(entries@)
                &&& sig.signature_file@ == signature_file_of(entries@)
                &&& rsa_pkcs1v15_sha256(private_key, signature_file_of(entries@)) matches Some(
                    signature,
                ) && spec_build_pkcs7(certificate_der@, signature) == CertFields::Found(
                    sig.pkcs7@,
                    Seq::empty(),
                )
            },
            Err(e) => {
                ||| rsa_pkcs1v15_sha256(private_key, signature_file_of(entries@)) is None && e
                    == JarError::SigningFailed
                ||| rsa_pkcs1v15_sha256(private_key, signature_file_of(entries@)) is Some
                    && spec_issuer_and_serial(certificate_der@) == CertFields::Failed(e)
            },
        },
        res is Ok <==> (rsa_pkcs1v15_sha256(private_key, signature_file_of(entries@)) is Some
            && spec_issuer_and_serial(certificate_der@) is Found),
{
    let (manifest, signature_file) = manifest_files(entries);
    let signature = match rsa_sha256_sign(private_key, signature_file.as_slice()) {
        Some(s) => s,
        None => {
            return Err(JarError::SigningFailed);
        },
    };
    let pkcs7 = pkcs7_signed_data(certificate_der, signature.as_slice())?;
    Ok(JarSignature { manifest, signature_file, pkcs7 })
}

// ---------------------------------------------------------------------------
// Laws of the encodings
// ---------------------------------------------------------------------------

proof fn lemma_be_minimal_value(n: nat)
    requires
        n > 0,
    ensures
        be_value(be_minimal(n)) == n,
        be_minimal(n).len() >= 1,
    decreases n,
{
    let b = be_minimal(n);
    if n >= 256 {
        lemma_be_minimal_value(n / 256);
        assert(b.drop_last() =~= be_minimal(n / 256));
        assert(b.last() == (n % 256) as u8);
        assert(b.last() as nat == n % 256);
        vstd::arithmetic::div_mod::lemma_fundamental_div_mod(n as int, 256);
        assert(be_value(b) == be_value(be_minimal(n / 256)) * 256 + b.last() as nat);
    } else {
        assert(b.drop_last() =~= Seq::<u8>::empty());
        assert(be_value(b) == be_value(b.drop_last()) * 256 + b.last() as nat);
    }
}

/// The big-endian bytes of a positive number begin with a nonzero byte.
proof fn lemma_be_minimal_leading(n: nat)
    requires
        n > 0,
    ensures
        be_minimal(n)[0] != 0,
        be_minimal(n).len() >= 1,
    decreases n,
{
    if n >= 256 {
        lemma_be_minimal_leading(n / 256);
        assert(be_minimal(n)[0] == be_minimal(n / 256)[0]);
    }
}

/// Reading the TLV that `der` builds gives back its tag, the length of its
/// header and the length of its content (for a content whose length fits
/// in `usize`); the content follows the header, and the length is written in
/// the fewest bytes: one byte below 0x80, else 0x80 plus the number of
/// big-endian bytes of the length, the first of them nonzero.
pub proof fn lemma_der_read_back(tag: u8, content: Seq<u8>)
    requires
        content.len() <= usize::MAX,
    ensures
        spec_read_tlv(spec_der(tag, content), 0) == Ok::<(u8, int, int), JarError>(
            (tag, 1 + der_length(content.len()).len() as int, content.len() as int),
        ),
        spec_der(tag, content).len() == 1 + der_length(content.len()).len() + content.len(),
        spec_der(tag, content).skip(1 + der_length(content.len()).len() as int) == content,
        content.len() < 0x80 ==> der_length(content.len()).len() == 1,
        content.len() >= 0x80 ==> {
            &&& der_length(content.len()).len() == 1 + be_minimal(content.len()).len()
            &&& be_value(be_minimal(content.len())) == content.len()
            &&& spec_der(tag, content)[2] != 0
        },
{
    let d = spec_der(tag, content);
    let n = content.len();
    assert(d[0] == tag);
    assert(d.skip(1 + der_length(n).len() as int) =~= content);
    if n >= 0x80 {
        lemma_be_minimal_leading(n);
        assert(d[2] == be_minimal(n)[0]);
        let m = be_minimal(n);
        lemma_be_minimal_value(n);
        lemma_pow256_8();
        lemma_be_minimal_len(n, 8);
        assert(d[1] == (0x80 + m.len()) as u8);
        assert(d.subrange(2, 2 + m.len() as int) =~= m);
        vstd::arithmetic::div_mod::lemma_small_mod(n, usize::MAX as nat + 1);
    } else {
        assert(d[1] == n as u8);
    }
}

/// The lines that `wrap_bytes` writes, without their line ends.
pub open spec fn wrapped_lines(b: Seq<u8>, first: bool) -> Seq<Seq<u8>>
    decreases b.len(),
{
    if b.len() == 0 {
        Seq::empty()
    } else {
        let limit: int = if first {
            70
        } else {
            69
        };
        let cut = greedy_cut(
            b,
            if b.len() < limit {
                b.len() as int
            } else {
                limit
            },
        );
        if cut <= 0 || cut > b.len() {
            Seq::empty()
        } else {
            seq![
                (if first {
                    Seq::empty()
                } else {
                    seq![0x20u8]
                }) + b.take(cut),
            ] + wrapped_lines(b.skip(cut), false)
        }
    }
}

/// Lines, each ended by CR LF.
pub open spec fn terminated(lines: Seq<Seq<u8>>) -> Seq<u8>
    decreases lines.len(),
{
    if lines.len() == 0 {
        Seq::empty()
    } else {
        lines[0] + crlf() + terminated(lines.drop_first())
    }
}

/// The text of wrapped lines: the first line as it is, each further one
/// without its leading space.
pub open spec fn unwrapped(lines: Seq<Seq<u8>>, first: bool) -> Seq<u8>
    decreases lines.len(),
{
    if lines.len() == 0 {
        Seq::empty()
    } else {
        (if first {
            lines[0]
        } else {
            lines[0].drop_first()
        }) + unwrapped(lines.drop_first(), false)
    }
}

/// The JAR line wrapping of UTF-8 text is a sequence of lines, each ended by
/// CR LF and none longer than 70 bytes, every line after the first starting
/// with a space; joining the lines without that space gives back the text.
pub proof fn lemma_wrap_lines(b: Seq<u8>, first: bool)
    requires
        valid_utf8(b),
    ensures
        wrap_bytes(b, first) == terminated(wrapped_lines(b, first)),
        forall|i: int|
            0 <= i < wrapped_lines(b, first).len() ==> #[trigger] wrapped_lines(b, first)[i].len()
                <= 70,
        forall|i: int|
            0 <= i < wrapped_lines(b, first).len() && (i > 0 || !first) ==> #[trigger] wrapped_lines(
                b,
                first,
            )[i].len() > 0 && wrapped_lines(b, first)[i][0] == 0x20,
        unwrapped(wrapped_lines(b, first), first) == b,
    decreases b.len(),
{
    if b.len() > 0 {
        let limit: int = if first {
            70
        } else {
            69
        };
        let start = if b.len() < limit {
            b.len() as int
        } else {
            limit
        };
        lemma_first_scalar_boundary(b);
        lemma_greedy_cut(b, start, length_of_first_scalar(b));
        let cut = greedy_cut(b, start);
        vstd::utf8::valid_utf8_split(b, cut);
        assert(b.skip(cut) =~= b.subrange(cut, b.len() as int));
        lemma_wrap_lines(b.skip(cut), false);
        let head = (if first {
            Seq::empty()
        } else {
            seq![0x20u8]
        }) + b.take(cut);
        let rest = wrapped_lines(b.skip(cut), false);
        let lines = wrapped_lines(b, first);
        assert(lines == seq![head] + rest);
        assert(lines.drop_first() =~= rest);
        assert(lines[0] == head);
        assert(wrap_bytes(b, first) =~= terminated(lines));
        if first {
            assert(unwrapped(lines, first) =~= b.take(cut) + unwrapped(rest, false));
        } else {
            assert(head.drop_first() =~= b.take(cut));
            assert(unwrapped(lines, first) =~= b.take(cut) + unwrapped(rest, false));
        }
        assert(b.take(cut) + b.skip(cut) =~= b);
        assert forall|i: int| 0 <= i < lines.len() implies #[trigger] lines[i].len() <= 70 by {
            if i > 0 {
                assert(lines[i] == rest[i - 1]);
            }
        }
        assert forall|i: int| 0 <= i < lines.len() && (i > 0 || !first) implies #[trigger] lines[
            i
        ].len() > 0 && lines[i][0] == 0x20 by {
            if i > 0 {
                assert(lines[i] == rest[i - 1]);
            }
        }
    }
}

/// Whether `a` ends with `b`.
pub open spec fn ends_with(a: Seq<u8>, b: Seq<u8>) -> bool {
    b.len() <= a.len() && a.skip(a.len() - b.len()) == b
}

proof fn lemma_der_ends_with(tag: u8, content: Seq<u8>, tail: Seq<u8>)
    requires
        ends_with(content, tail),
    ensures
        ends_with(spec_der(tag, content), tail),
{
    let d = spec_der(tag, content);
    assert(d.skip(d.len() - tail.len()) =~= content.skip(content.len() - tail.len()));
}

proof fn lemma_concat_ends_with(a: Seq<u8>, b: Seq<u8>)
    ensures
        ends_with(a + b, b),
{
    assert((a + b).skip((a + b).len() - b.len()) =~= b);
}

/// The SignerInfo that CERT.RSA ends with, field by field as RFC 2315 orders
/// them: version 1, the issuer and serial number of the certificate, the
/// digest algorithm SHA-256 (2.16.840.1.101.3.4.2.1), the signature
/// algorithm rsaEncryption (1.2.840.113549.1.1.1), each with NULL
/// parameters, and the signature as an OCTET STRING; it stands alone in the
/// SET of signer infos that closes the SignedData.
pub open spec fn expected_signer_infos(issuer_serial: Seq<u8>, signature: Seq<u8>) -> Seq<u8> {
    let sha256 = seq![0x06u8, 0x09, 0x60, 0x86, 0x48, 0x01, 0x65, 0x03, 0x04, 0x02, 0x01];
    let rsa_encryption = seq![0x06u8, 0x09, 0x2A, 0x86, 0x48, 0x86, 0xF7, 0x0D, 0x01, 0x01, 0x01];
    let null = seq![0x05u8, 0x00];
    spec_der(
        0x31,
        spec_der(
            0x30,
            seq![0x02u8, 0x01, 0x01] + spec_der(0x30, issuer_serial) + spec_der(0x30, sha256 + null)
                + spec_der(0x30, rsa_encryption + null) + spec_der(0x04, signature),
        ),
    )
}

/// CERT.RSA closes with its one SignerInfo, which names SHA-256 as the
/// digest algorithm and then rsaEncryption as the signature algorithm, the
/// certificate by its issuer and serial number, and holds the signature.
#[verifier::rlimit(60)]
#[verifier::spinoff_prover]
pub proof fn lemma_signer_info_algorithms(certificate: Seq<u8>, signature: Seq<u8>)
    ensures
        spec_build_pkcs7(certificate, signature) matches CertFields::Found(p, _) ==> (
        spec_issuer_and_serial(certificate) matches CertFields::Found(issuer, serial) && ends_with(
            p,
            expected_signer_infos(issuer + serial, signature),
        )),
{
    match spec_issuer_and_serial(certificate) {
        CertFields::Found(issuer, serial) => {
            let alg_sha256 = spec_der(0x30, oid_sha256() + der_null());
            let alg_rsa = spec_der(0x30, oid_rsa() + der_null());
            let si = spec_der(
                0x30,
                version_one() + spec_der(0x30, issuer + serial) + alg_sha256 + alg_rsa + spec_der(
                    0x04,
                    signature,
                ),
            );
            let tail = spec_der(0x31, si);
            assert(tail == expected_signer_infos(issuer + serial, signature)) by {
                assert(version_one() =~= seq![0x02u8, 0x01, 0x01]);
            }
            let head = version_one() + spec_der(0x31, alg_sha256) + spec_der(0x30, oid_data())
                + spec_der(0xA0, certificate);
            lemma_concat_ends_with(head, tail);
            let signed_data = spec_der(0x30, head + tail);
            lemma_der_ends_with(0x30, head + tail, tail);
            lemma_der_ends_with(0xA0, signed_data, tail);
            lemma_concat_ends_with(oid_signed_data(), spec_der(0xA0, signed_data));
            assert(ends_with(oid_signed_data() + spec_der(0xA0, signed_data), tail)) by {
                let a = oid_signed_data() + spec_der(0xA0, signed_data);
                let b = spec_der(0xA0, signed_data);
                assert(a.skip(a.len() - tail.len()) =~= b.skip(b.len() - tail.len()));
            }
            lemma_der_ends_with(0x30, oid_signed_data() + spec_der(0xA0, signed_data), tail);
            assert(spec_pkcs7(certificate, signature, issuer, serial) == spec_der(
                0x30,
                oid_signed_data() + spec_der(0xA0, signed_data),
            ));
        },
        _ => {},
    }
}

} // verus!
