//! Server settings and the secrets used by the outer auth layer.
//!
//! Loading settings from files or the environment is the application
//! shell's job; this module holds the validated values and derives the
//! signing secret.

use vstd::prelude::*;
use vstd::string::StringSliceAdditionalSpecFns;

verus! {

/// The default port the server listens on.
pub const DEFAULT_PORT: u16 = 8000;

/// One kilobyte.
pub const KILOBYTE: u32 = 1024;

/// One megabyte.
pub const MEGABYTE: u32 = 1024 * 1024;

/// Default cap on combined BSO payload bytes in one request.
pub const DEFAULT_MAX_POST_BYTES: u32 = 2 * MEGABYTE;

/// Default cap on BSO count in one request.
pub const DEFAULT_MAX_POST_RECORDS: u32 = 100;

/// Default cap on one BSO payload's bytes.
pub const DEFAULT_MAX_RECORD_PAYLOAD_BYTES: u32 = 2 * MEGABYTE;

/// Default cap on a whole request's bytes.
pub const DEFAULT_MAX_REQUEST_BYTES: u32 = 2 * MEGABYTE + 4 * KILOBYTE;

/// Default cap on combined payload bytes across a batch upload.
pub const DEFAULT_MAX_TOTAL_BYTES: u32 = 100 * (2 * MEGABYTE);

/// Default cap on BSO count across a batch upload.
pub const DEFAULT_MAX_TOTAL_RECORDS: u32 = 100 * 100;

/// Server-enforced limits for request payloads.
#[derive(Clone, Copy, Debug, PartialEq, Eq, Structural)]
pub struct ServerLimits {
    /// Maximum combined size of BSO payloads for a single request, in bytes.
    pub max_post_bytes: u32,
    /// Maximum BSO count for a single request.
    pub max_post_records: u32,
    /// Maximum size of an individual BSO payload, in bytes.
    pub max_record_payload_bytes: u32,
    /// Maximum `Content-Length` for all incoming requests, in bytes;
    /// enforced by the web server in front of the API.
    pub max_request_bytes: u32,
    /// Maximum combined size of BSO payloads across a batch upload, in bytes.
    pub max_total_bytes: u32,
    /// Maximum BSO count across a batch upload.
    pub max_total_records: u32,
}

impl Default for ServerLimits {
    /// The default limits.
    fn default() -> (r: ServerLimits)
        ensures
            r.max_post_bytes == DEFAULT_MAX_POST_BYTES,
            r.max_post_records == DEFAULT_MAX_POST_RECORDS,
            r.max_record_payload_bytes == DEFAULT_MAX_RECORD_PAYLOAD_BYTES,
            r.max_request_bytes == DEFAULT_MAX_REQUEST_BYTES,
            r.max_total_bytes == DEFAULT_MAX_TOTAL_BYTES,
            r.max_total_records == DEFAULT_MAX_TOTAL_RECORDS,
    {
        ServerLimits {
            max_post_bytes: DEFAULT_MAX_POST_BYTES,
            max_post_records: DEFAULT_MAX_POST_RECORDS,
            max_record_payload_bytes: DEFAULT_MAX_RECORD_PAYLOAD_BYTES,
            max_request_bytes: DEFAULT_MAX_REQUEST_BYTES,
            max_total_bytes: DEFAULT_MAX_TOTAL_BYTES,
            max_total_records: DEFAULT_MAX_TOTAL_RECORDS,
        }
    }
}

/// The 32-byte output of HKDF-SHA-256 extract-and-expand: a function of
/// the salt, the input key material, and the info string alone.
pub uninterp spec fn hkdf_sha256_okm32(info: Seq<u8>, salt: Option<Seq<u8>>, ikm: Seq<u8>) -> Seq<
    u8,
>;

/// Relies on hkdf's `Hkdf::<Sha256>::new` and `expand` (HKDF-SHA-256,
/// RFC 5869): the 32-byte output keying material is a deterministic
/// function of salt, input key material, and info. A 32-byte output is
/// always a valid length for expand, so the call cannot fail.
#[verifier::external_body]
fn hkdf_expand_32(info: &[u8], salt: Option<&[u8]>, key: &[u8]) -> (r: [u8; 32])
    ensures
        r@ == hkdf_sha256_okm32(
            info@,
            match salt {
                Some(s) => Some(s@),
                None => None,
            },
            key@,
        ),
{
    let hk = hkdf::Hkdf::<sha2::Sha256>::new(salt, key);
    let mut okm = [0u8; 32];
    hk.expand(info, &mut okm).expect("32 bytes is a valid HKDF-SHA-256 output length");
    okm
}

/// Secrets used during Hawk authentication.
#[derive(Debug)]
pub struct Secrets {
    /// The master secret in byte array form; the signing secret and token
    /// secret are derived from it.
    pub master_secret: Vec<u8>,
    /// The signing secret used during Hawk authentication.
    pub signing_secret: [u8; 32],
}

impl Secrets {
    /// Decodes the master secret to a byte array and derives the signing
    /// secret from it.
    pub fn new(master_secret: &str) -> (r: Secrets)
        ensures
            r.master_secret@ == master_secret.spec_bytes(),
            r.signing_secret@ == hkdf_sha256_okm32(
                "services.mozilla.com/tokenlib/v1/signing".spec_bytes(),
                None,
                master_secret.spec_bytes(),
            ),
    {
        let master: Vec<u8> = master_secret.as_bytes_vec();
        let info: &str = "services.mozilla.com/tokenlib/v1/signing";
        let signing_secret = hkdf_expand_32(info.as_bytes(), None, master.as_slice());
        Secrets { master_secret: master, signing_secret }
    }
}

impl Default for Secrets {
    /// A (useless) all-zero instance.
    fn default() -> (r: Secrets)
        ensures
            r.master_secret@ == Seq::<u8>::empty(),
            r.signing_secret@ =~= Seq::new(32, |i: int| 0u8),
    {
        let r = Secrets { master_secret: Vec::new(), signing_secret: [0u8; 32] };
        proof {
            assert(r.master_secret@ =~= Seq::<u8>::empty());
            assert(r.signing_secret@ =~= Seq::new(32, |i: int| 0u8));
        }
        r
    }
}

/// Application settings.
#[derive(Debug)]
pub struct Settings {
    pub debug: bool,
    pub port: u16,
    pub database_url: String,
    pub database_pool_max_size: Option<u32>,
    /// Server-enforced limits for request payloads.
    pub limits: ServerLimits,
    /// The master secret, from which the signing secret and token secret
    /// used during Hawk authentication are derived.
    pub master_secret: Secrets,
}

impl Default for Settings {
    /// The default settings: a local database, default limits, no secret.
    fn default() -> (r: Settings)
        ensures
            !r.debug,
            r.port == DEFAULT_PORT,
            r.database_url@ == "mysql://root@127.0.0.1/syncstorage"@,
            r.database_pool_max_size is None,
            r.limits.max_post_bytes == DEFAULT_MAX_POST_BYTES,
            r.limits.max_post_records == DEFAULT_MAX_POST_RECORDS,
            r.limits.max_record_payload_bytes == DEFAULT_MAX_RECORD_PAYLOAD_BYTES,
            r.limits.max_request_bytes == DEFAULT_MAX_REQUEST_BYTES,
            r.limits.max_total_bytes == DEFAULT_MAX_TOTAL_BYTES,
            r.limits.max_total_records == DEFAULT_MAX_TOTAL_RECORDS,
            r.master_secret.master_secret@ == Seq::<u8>::empty(),
    {
        Settings {
            debug: false,
            port: DEFAULT_PORT,
            database_url: "mysql://root@127.0.0.1/syncstorage".to_owned(),
            database_pool_max_size: None,
            limits: ServerLimits::default(),
            master_secret: Secrets::default(),
        }
    }
}

} // verus!
