//! TLS 1.3 configuration: a self-signed certificate for the local names and
//! ALPN offering HTTP/2 and HTTP/1.1.
use std::sync::Arc;

use vstd::prelude::*;
use vstd::utf8::*;

use crate::text::{chars_of, starts_with, string_of};

verus! {

/// `rustls::ServerConfig`, built here and handed to the TLS layer.
#[verifier::external_type_specification]
#[verifier::external_body]
pub struct ExServerConfig(rustls::ServerConfig);

/// `rcgen::Error`, reported as text.
#[verifier::external_type_specification]
#[verifier::external_body]
pub struct ExRcgenError(rcgen::Error);

/// `rustls::Error`, reported as text.
#[verifier::external_type_specification]
#[verifier::external_body]
pub struct ExRustlsError(rustls::Error);

/// `rcgen::generate_simple_self_signed` on `names`, giving the certificate
/// and its freshly generated private key (PKCS#8), both DER-encoded.  The
/// key is random, so nothing is claimed of either.
#[verifier::external_body]
fn self_signed_certificate(names: Vec<String>) -> Result<(Vec<u8>, Vec<u8>), rcgen::Error> {
    let certified = rcgen::generate_simple_self_signed(names)?;
    Ok((certified.cert.der().to_vec(), certified.key_pair.serialize_der()))
}

/// The `Display` text of an `rcgen::Error`; nothing is claimed of it.
#[verifier::external_body]
fn rcgen_error_text(e: &rcgen::Error) -> String {
    e.to_string()
}

/// `rustls::ServerConfig::builder().with_no_client_auth().with_single_cert`
/// for one certificate and its PKCS#8 key; nothing is claimed of the outcome.
#[verifier::external_body]
fn single_cert_config(cert_der: Vec<u8>, key_der: Vec<u8>) -> Result<
    rustls::ServerConfig,
    rustls::Error,
> {
    rustls::ServerConfig::builder().with_no_client_auth().with_single_cert(
        vec![rustls::pki_types::CertificateDer::from(cert_der)],
        rustls::pki_types::PrivateKeyDer::Pkcs8(key_der.into()),
    )
}

/// The `Display` text of a `rustls::Error`; nothing is claimed of it.
#[verifier::external_body]
fn rustls_error_text(e: &rustls::Error) -> String {
    e.to_string()
}

/// A rustls server configuration together with the ALPN protocol ids it
/// offers, in order of preference.
pub struct TlsConfig {
    config: rustls::ServerConfig,
    alpn: Ghost<Seq<Seq<u8>>>,
}

impl TlsConfig {
    /// The ALPN protocol ids the configuration offers (its `alpn_protocols`).
    pub closed spec fn alpn_list(&self) -> Seq<Seq<u8>> {
        self.alpn@
    }

    /// The rustls configuration itself.
    pub closed spec fn server(&self) -> rustls::ServerConfig {
        self.config
    }

    /// The rustls configuration, to hand to the TLS layer.
    pub fn server_config(&self) -> (r: &rustls::ServerConfig)
        ensures
            *r == self.server(),
    {
        &self.config
    }
}

/// Sets the `alpn_protocols` field of the rustls configuration to
/// `protocols`: afterwards it offers exactly those ids, in that order.
#[verifier::external_body]
fn set_alpn(config: &mut TlsConfig, protocols: Vec<Vec<u8>>)
    ensures
        final(config).alpn_list() == protocols@.map_values(|p: Vec<u8>| p@),
{
    config.config.alpn_protocols = protocols;
}

/// The names the certificate is issued for.
pub open spec fn certificate_names() -> Seq<Seq<char>> {
    seq!["localhost"@, "127.0.0.1"@]
}

/// ALPN protocol ids in order of preference: HTTP/2, then HTTP/1.1.
pub open spec fn alpn_ids() -> Seq<Seq<u8>> {
    seq![encode_utf8("h2"@), encode_utf8("http/1.1"@)]
}

pub fn tls_certificate_names() -> (r: Vec<String>)
    ensures
        r@.len() == certificate_names().len(),
        forall|i: int| 0 <= i < r@.len() ==> #[trigger] r@[i]@ == certificate_names()[i],
{
    let mut names = Vec::new();
    names.push("localhost".to_owned());
    names.push("127.0.0.1".to_owned());
    names
}

pub fn tls_alpn_protocols() -> (r: Vec<Vec<u8>>)
    ensures
        r@.len() == alpn_ids().len(),
        forall|i: int| 0 <= i < r@.len() ==> #[trigger] r@[i]@ == alpn_ids()[i],
{
    let mut protocols = Vec::new();
    protocols.push(vstd::slice::slice_to_vec("h2".as_bytes()));
    protocols.push(vstd::slice::slice_to_vec("http/1.1".as_bytes()));
    protocols
}

/// `prefix` followed by `detail`.
fn prefixed(prefix: &str, detail: &str) -> (r: String)
    ensures
        r@ == prefix@ + detail@,
{
    let mut cs = chars_of(prefix);
    let mut ds = chars_of(detail);
    cs.append(&mut ds);
    string_of(cs.as_slice())
}

/// Generate or load TLS 1.3 ServerConfig with ALPN support for HTTP/2 ("h2") and HTTP/1.1 ("http/1.1")
pub fn create_tls_config() -> (r: Result<Arc<TlsConfig>, String>)
    ensures
        r matches Ok(c) ==> c.alpn_list() == alpn_ids(),
        r matches Err(e) ==> starts_with(e@, "failed to generate self-signed TLS cert: "@)
            || starts_with(e@, "failed to build TLS ServerConfig: "@),
{
    let subject_alt_names = tls_certificate_names();
    let (cert_der, key_der) = match self_signed_certificate(subject_alt_names) {
        Ok(pair) => pair,
        Err(e) => {
            let text = rcgen_error_text(&e);
            let msg = prefixed("failed to generate self-signed TLS cert: ", text.as_str());
            assert(msg@.subrange(0, "failed to generate self-signed TLS cert: "@.len() as int)
                =~= "failed to generate self-signed TLS cert: "@);
            return Err(msg);
        },
    };
    let config = match single_cert_config(cert_der, key_der) {
        Ok(c) => c,
        Err(e) => {
            let text = rustls_error_text(&e);
            let msg = prefixed("failed to build TLS ServerConfig: ", text.as_str());
            assert(msg@.subrange(0, "failed to build TLS ServerConfig: "@.len() as int)
                =~= "failed to build TLS ServerConfig: "@);
            return Err(msg);
        },
    };
    let mut tls = TlsConfig { config, alpn: Ghost(Seq::empty()) };
    let protocols = tls_alpn_protocols();
    set_alpn(&mut tls, protocols);
    assert(tls.alpn_list() =~= alpn_ids());
    Ok(Arc::new(tls))
}

} // verus!
