//! Certificates and private keys: when they are made, and how they are read.

use rustls_pki_types::PrivateKeyDer;
use vstd::prelude::*;

verus! {

/// The names that a certificate is made for.
pub open spec fn certificate_names() -> Seq<Seq<char>> {
    seq!["localhost"@, "127.0.0.1"@, "10.0.1.2"@, "host.wokwi.internal"@]
}

/// The content of a list of texts.
pub open spec fn texts(list: Seq<String>) -> Seq<Seq<char>> {
    Seq::new(list.len(), |i: int| list[i]@)
}

/// The names of the certificate that is to be made: none where certificate and key are there.
pub fn wanted_certificate(cert_there: bool, key_there: bool) -> (r: Option<Vec<String>>)
    ensures
        r is None <==> cert_there && key_there,
        r matches Some(names) ==> texts(names@) == certificate_names(),
{
    if cert_there && key_there {
        return None;
    }
    let names = vec![
        "localhost".to_owned(),
        "127.0.0.1".to_owned(),
        "10.0.1.2".to_owned(),
        "host.wokwi.internal".to_owned(),
    ];
    assert(texts(names@) =~= certificate_names());
    Some(names)
}

/// Calls `rcgen::generate_simple_self_signed`, which makes a random key pair and a certificate for
/// the names that it signs, and gives both in PEM, or what went wrong. Nothing is claimed of them:
/// the key is random.
#[verifier::external_body]
fn self_signed(names: Vec<String>) -> (r: Result<(String, String), String>) {
    match rcgen::generate_simple_self_signed(names) {
        Ok(made) => Ok((made.cert.pem(), made.key_pair.serialize_pem())),
        Err(e) => Err(format!("{e:?}")),
    }
}

/// What becomes of the attempt to make a certificate and a key: both are to be stored, or the
/// fault is told.
pub fn certificate_made(made: Result<(String, String), String>) -> (r: Result<
    Option<(String, String)>,
    String,
>)
    ensures
        match made {
            Ok(pair) => r == Ok::<_, String>(Some(pair)),
            Err(e) => r matches Err(text) && text@ == "rcgen error: "@ + e@,
        },
{
    match made {
        Ok(pair) => Ok(Some(pair)),
        Err(e) => Err("rcgen error: ".to_owned().concat(e.as_str())),
    }
}

/// Makes a certificate and its key, both in PEM and to be stored, unless both are there.
pub fn ensure_certificates(cert_there: bool, key_there: bool) -> (r: Result<
    Option<(String, String)>,
    String,
>)
    ensures
        cert_there && key_there <==> r == Ok::<Option<(String, String)>, String>(None),
        r matches Err(text) ==> "rcgen error: "@.is_prefix_of(text@),
{
    match wanted_certificate(cert_there, key_there) {
        None => Ok(None),
        Some(names) => certificate_made(self_signed(names)),
    }
}

/// The formats of private keys.
#[derive(Debug, Clone, Copy, PartialEq, Eq, Structural)]
pub enum KeyFormat {
    /// PKCS #1, for RSA.
    Pkcs1,
    /// SEC 1, for elliptic curves.
    Sec1,
    /// PKCS #8.
    Pkcs8,
}

/// A private key in DER.
pub struct PrivateKey {
    /// Its format.
    pub format: KeyFormat,
    /// Its bytes.
    pub der: Vec<u8>,
}

impl View for PrivateKey {
    type V = (KeyFormat, Seq<u8>);

    open spec fn view(&self) -> (KeyFormat, Seq<u8>) {
        (self.format, self.der@)
    }
}

/// Why certificates or a key cannot be used.
#[derive(Debug, Clone, Copy, PartialEq, Eq, Structural)]
pub enum PemFault {
    /// The text is not PEM.
    Malformed,
    /// There is no private key in it.
    NoKey,
}

impl PemFault {
    /// What is told of the fault.
    pub fn message(self) -> (r: &'static str)
        ensures
            r@ == match self {
                PemFault::Malformed => "malformed PEM"@,
                PemFault::NoKey => "private key not found"@,
            },
    {
        match self {
            PemFault::Malformed => "malformed PEM",
            PemFault::NoKey => "private key not found",
        }
    }
}

/// The content of a list of byte strings.
pub open spec fn byte_strings(list: Seq<Vec<u8>>) -> Seq<Seq<u8>> {
    Seq::new(list.len(), |i: int| list[i]@)
}

/// The content of a list of byte strings that may be absent.
pub open spec fn byte_strings_opt(list: Option<Vec<Vec<u8>>>) -> Option<Seq<Seq<u8>>> {
    match list {
        Some(l) => Some(byte_strings(l@)),
        None => None,
    }
}

/// The content of a key that may be absent, where there is an answer at all.
pub open spec fn key_opt(found: Option<Option<PrivateKey>>) -> Option<
    Option<(KeyFormat, Seq<u8>)>,
> {
    match found {
        Some(Some(key)) => Some(Some(key@)),
        Some(None) => Some(None),
        None => None,
    }
}

/// The certificates in a PEM text, in DER; nothing where the text is malformed.
pub uninterp spec fn pem_certificates(pem: Seq<u8>) -> Option<Seq<Seq<u8>>>;

/// The first private key in a PEM text, where there is one; nothing where the text up to it is
/// malformed.
pub uninterp spec fn pem_private_key(pem: Seq<u8>) -> Option<Option<(KeyFormat, Seq<u8>)>>;

/// Calls `rustls_pemfile::certs` on the bytes, which gives the sections that are certificates, in
/// their order, up to a section that cannot be read. The result is the list in DER, and nothing
/// where there is such a section. It depends on the bytes alone.
#[verifier::external_body]
fn read_certificates(pem: &[u8]) -> (r: Option<Vec<Vec<u8>>>)
    ensures
        byte_strings_opt(r) == pem_certificates(pem@),
{
    let mut rest: &[u8] = pem;
    rustls_pemfile::certs(&mut rest).map(|found| found.map(|cert| cert.to_vec()).ok()).collect()
}

/// Calls `rustls_pemfile::private_key` on the bytes, which gives the first section that is a
/// private key, as PKCS #1, SEC 1 or PKCS #8 by its label, or an error where a section up to there
/// cannot be read. It depends on the bytes alone.
#[verifier::external_body]
fn read_private_key(pem: &[u8]) -> (r: Option<Option<PrivateKey>>)
    ensures
        key_opt(r) == pem_private_key(pem@),
{
    let mut rest: &[u8] = pem;
    let (format, der) = match rustls_pemfile::private_key(&mut rest).ok()? {
        Some(PrivateKeyDer::Pkcs1(k)) => (KeyFormat::Pkcs1, k.secret_pkcs1_der().to_vec()),
        Some(PrivateKeyDer::Sec1(k)) => (KeyFormat::Sec1, k.secret_sec1_der().to_vec()),
        Some(PrivateKeyDer::Pkcs8(k)) => (KeyFormat::Pkcs8, k.secret_pkcs8_der().to_vec()),
        _ => return Some(None),
    };
    Some(Some(PrivateKey { format, der }))
}

/// What is read of certificates: the list, or the fault.
pub fn certificates_read(found: Option<Vec<Vec<u8>>>) -> (r: Result<Vec<Vec<u8>>, PemFault>)
    ensures
        match found {
            Some(list) => r == Ok::<_, PemFault>(list),
            None => r == Err::<Vec<Vec<u8>>, PemFault>(PemFault::Malformed),
        },
{
    match found {
        Some(list) => Ok(list),
        None => Err(PemFault::Malformed),
    }
}

/// What is read of a private key: the key, or the fault.
pub fn private_key_read(found: Option<Option<PrivateKey>>) -> (r: Result<PrivateKey, PemFault>)
    ensures
        match found {
            Some(Some(key)) => r == Ok::<_, PemFault>(key),
            Some(None) => r == Err::<PrivateKey, PemFault>(PemFault::NoKey),
            None => r == Err::<PrivateKey, PemFault>(PemFault::Malformed),
        },
{
    match found {
        Some(Some(key)) => Ok(key),
        Some(None) => Err(PemFault::NoKey),
        None => Err(PemFault::Malformed),
    }
}

/// The certificates in a PEM text, in DER.
pub fn load_certs(pem: &[u8]) -> (r: Result<Vec<Vec<u8>>, PemFault>)
    ensures
        match pem_certificates(pem@) {
            Some(list) => r matches Ok(found) && byte_strings(found@) == list,
            None => r == Err::<Vec<Vec<u8>>, PemFault>(PemFault::Malformed),
        },
{
    certificates_read(read_certificates(pem))
}

/// The first private key in a PEM text.
pub fn load_key(pem: &[u8]) -> (r: Result<PrivateKey, PemFault>)
    ensures
        match pem_private_key(pem@) {
            Some(Some(key)) => r matches Ok(found) && found@ == key,
            Some(None) => r == Err::<PrivateKey, PemFault>(PemFault::NoKey),
            None => r == Err::<PrivateKey, PemFault>(PemFault::Malformed),
        },
{
    private_key_read(read_private_key(pem))
}

} // verus!
