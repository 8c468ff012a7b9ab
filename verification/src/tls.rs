//! Whom a client takes for its server.

use vstd::prelude::*;

use crate::text::same_bytes;

verus! {

/// The certificate that was presented is not the one that is trusted.
#[derive(Debug, Clone, Copy, PartialEq, Eq, Structural)]
pub struct BadSignature;

/// Trust in one certificate, and in no other.
#[derive(Debug)]
pub struct ServerVerification {
    certificate: Vec<u8>,
}

impl View for ServerVerification {
    type V = Seq<u8>;

    closed spec fn view(&self) -> Seq<u8> {
        self.certificate@
    }
}

impl ServerVerification {
    /// Trust in the certificate whose DER encoding is `certificate`.
    pub fn new(certificate: Vec<u8>) -> (verification: ServerVerification)
        ensures
            verification@ == certificate@,
    {
        ServerVerification { certificate }
    }

    fn check(&self, presented: &[u8]) -> (result: Result<(), BadSignature>)
        ensures
            result is Ok <==> presented@ == self@,
    {
        if same_bytes(self.certificate.as_slice(), presented) {
            Ok(())
        } else {
            Err(BadSignature)
        }
    }

    /// Whether the server's certificate is the trusted one.
    pub fn verify_server_cert(&self, end_entity: &[u8]) -> (result: Result<(), BadSignature>)
        ensures
            result is Ok <==> end_entity@ == self@,
    {
        self.check(end_entity)
    }

    /// Whether the certificate that signed a TLS 1.2 handshake is the trusted one.
    /// The signature itself is not looked at.
    pub fn verify_tls12_signature(&self, cert: &[u8]) -> (result: Result<(), BadSignature>)
        ensures
            result is Ok <==> cert@ == self@,
    {
        self.check(cert)
    }

    /// Whether the certificate that signed a TLS 1.3 handshake is the trusted one.
    /// The signature itself is not looked at.
    pub fn verify_tls13_signature(&self, cert: &[u8]) -> (result: Result<(), BadSignature>)
        ensures
            result is Ok <==> cert@ == self@,
    {
        self.check(cert)
    }

    /// The signature schemes that a client accepts, by their TLS code points: those
    /// of RSA PKCS#1 and ECDSA with SHA-1, SHA-256, SHA-384 and SHA-512, of RSA-PSS
    /// with the last three, Ed25519 and Ed448.
    pub fn supported_verify_schemes(&self) -> (schemes: Vec<u16>)
        ensures
            schemes@ == seq![
                0x0201u16,
                0x0203u16,
                0x0401u16,
                0x0403u16,
                0x0501u16,
                0x0503u16,
                0x0601u16,
                0x0603u16,
                0x0804u16,
                0x0805u16,
                0x0806u16,
                0x0807u16,
                0x0808u16,
            ],
    {
        vec![
            0x0201u16,
            0x0203u16,
            0x0401u16,
            0x0403u16,
            0x0501u16,
            0x0503u16,
            0x0601u16,
            0x0603u16,
            0x0804u16,
            0x0805u16,
            0x0806u16,
            0x0807u16,
            0x0808u16,
        ]
    }
}

} // verus!
