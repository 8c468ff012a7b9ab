use penoxy::text::{same_bytes, same_text};
use penoxy::tls::{BadSignature, ServerVerification};

#[test]
fn only_the_trusted_certificate_passes() {
    let verification = ServerVerification::new(vec![1, 2, 3]);
    assert_eq!(verification.verify_server_cert(&[1, 2, 3]), Ok(()));
    assert_eq!(verification.verify_server_cert(&[1, 2]), Err(BadSignature));
    assert_eq!(verification.verify_tls12_signature(&[1, 2, 3]), Ok(()));
    assert_eq!(verification.verify_tls12_signature(&[1, 2, 4]), Err(BadSignature));
    assert_eq!(verification.verify_tls13_signature(&[1, 2, 3]), Ok(()));
    assert_eq!(verification.verify_tls13_signature(&[]), Err(BadSignature));
}

#[test]
fn accepted_schemes() {
    let schemes: Vec<u16> = ServerVerification::new(vec![]).supported_verify_schemes();
    let named: Vec<quinn::rustls::SignatureScheme> =
        schemes.into_iter().map(quinn::rustls::SignatureScheme::from).collect();
    assert_eq!(
        named,
        vec![
            quinn::rustls::SignatureScheme::RSA_PKCS1_SHA1,
            quinn::rustls::SignatureScheme::ECDSA_SHA1_Legacy,
            quinn::rustls::SignatureScheme::RSA_PKCS1_SHA256,
            quinn::rustls::SignatureScheme::ECDSA_NISTP256_SHA256,
            quinn::rustls::SignatureScheme::RSA_PKCS1_SHA384,
            quinn::rustls::SignatureScheme::ECDSA_NISTP384_SHA384,
            quinn::rustls::SignatureScheme::RSA_PKCS1_SHA512,
            quinn::rustls::SignatureScheme::ECDSA_NISTP521_SHA512,
            quinn::rustls::SignatureScheme::RSA_PSS_SHA256,
            quinn::rustls::SignatureScheme::RSA_PSS_SHA384,
            quinn::rustls::SignatureScheme::RSA_PSS_SHA512,
            quinn::rustls::SignatureScheme::ED25519,
            quinn::rustls::SignatureScheme::ED448,
        ]
    );
}

#[test]
fn comparing() {
    assert!(same_bytes(&[], &[]));
    assert!(!same_bytes(&[1], &[2]));
    assert!(same_text("é", "é"));
    assert!(!same_text("e", "é"));
    assert!(!same_text("a", "ab"));
}
