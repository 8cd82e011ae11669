//! The master's configuration.
use vstd::prelude::*;

verus! {

/// Where the master listens and the password nodes must present.
#[derive(Debug, Clone)]
pub struct General {
    pub host: String,
    pub host_pass: String,
}

/// The files of the master's TLS key and certificate.
#[derive(Debug, Clone)]
pub struct TlsConfig {
    pub key_pem: String,
    pub cert_pem: String,
}

/// The master's configuration.
#[derive(Debug, Clone)]
pub struct Config {
    pub general: General,
    pub tls: TlsConfig,
}

} // verus!
