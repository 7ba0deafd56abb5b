use pipistrelle::certificates::{
    certificate_made, certificates_read, ensure_certificates, load_certs, load_key,
    private_key_read, wanted_certificate, KeyFormat, PemFault,
};

#[test]
fn a_certificate_is_wanted_unless_both_files_are_there() {
    assert!(wanted_certificate(true, true).is_none());
    for (cert, key) in [(false, false), (true, false), (false, true)] {
        assert_eq!(
            wanted_certificate(cert, key).unwrap(),
            vec!["localhost", "127.0.0.1", "10.0.1.2", "host.wokwi.internal"]
        );
    }
    assert_eq!(ensure_certificates(true, true), Ok(None));
}

#[test]
fn what_is_made_can_be_read() {
    let (cert, key) = ensure_certificates(true, false).unwrap().unwrap();
    assert!(cert.starts_with("-----BEGIN CERTIFICATE-----"));
    let certs = load_certs(cert.as_bytes()).unwrap();
    assert_eq!(certs.len(), 1);
    assert_eq!(certs[0][0], 0x30);
    for name in ["localhost", "host.wokwi.internal"] {
        assert!(certs[0].windows(name.len()).any(|part| part == name.as_bytes()));
    }
    let key = load_key(key.as_bytes()).unwrap();
    assert_eq!(key.format, KeyFormat::Pkcs8);
    assert_eq!(key.der[0], 0x30);
}

#[test]
fn faults_of_making_are_told() {
    let told = certificate_made(Err("no randomness".to_string()));
    assert_eq!(told, Err("rcgen error: no randomness".to_string()));
    let pair = ("cert".to_string(), "key".to_string());
    assert_eq!(certificate_made(Ok(pair.clone())), Ok(Some(pair)));
}

#[test]
fn keys_are_told_apart_by_their_labels() {
    let of = |label: &str| format!("-----BEGIN {label}-----\nAQID\n-----END {label}-----\n");
    let kinds = [
        ("RSA PRIVATE KEY", KeyFormat::Pkcs1),
        ("EC PRIVATE KEY", KeyFormat::Sec1),
        ("PRIVATE KEY", KeyFormat::Pkcs8),
    ];
    for (label, format) in kinds {
        let text = of("CERTIFICATE") + &of(label);
        let key = load_key(text.as_bytes()).unwrap();
        assert_eq!(key.format, format);
        assert_eq!(key.der, vec![1, 2, 3]);
    }
    let two = of("CERTIFICATE") + "between\n" + &of("CERTIFICATE");
    assert_eq!(load_certs(two.as_bytes()), Ok(vec![vec![1, 2, 3], vec![1, 2, 3]]));
}

#[test]
fn no_key_is_not_the_same_as_no_pem() {
    let cert = b"-----BEGIN CERTIFICATE-----\nAQID\n-----END CERTIFICATE-----\n";
    assert_eq!(load_key(cert).err(), Some(PemFault::NoKey));
    assert_eq!(load_key(b"").err(), Some(PemFault::NoKey));
    assert_eq!(load_certs(b"no certificate here"), Ok(vec![]));
    let open = b"-----BEGIN CERTIFICATE-----\nAQID\n";
    assert_eq!(load_certs(open), Err(PemFault::Malformed));
    assert_eq!(load_key(open).err(), Some(PemFault::Malformed));
    assert_eq!(certificates_read(None), Err(PemFault::Malformed));
    assert_eq!(private_key_read(Some(None)).err(), Some(PemFault::NoKey));
    assert_eq!(PemFault::NoKey.message(), "private key not found");
    assert_eq!(PemFault::Malformed.message(), "malformed PEM");
}
