//! The HTTP fetch provider.
//!
//! A provider receives an opaque configuration value from the manifest
//! layer, a destination path, evidence that the caller holds the fetch
//! lock for the artifact's shard, and the artifact's metadata. The HTTP
//! provider reads the one field it understands — `url`, which must be a
//! string — and hands the transfer itself to a pluggable transfer
//! mechanism, wrapping any transfer failure with the failing URL.

use vstd::prelude::*;

verus! {

#[verifier::external_type_specification]
#[verifier::external_body]
pub struct ExValue(serde_jsonrc::value::Value);

/// The string-valued fields of a JSON value: the map from key to
/// contained string over every field of `v` that is a JSON object field
/// holding a JSON string. Empty when `v` is not an object.
pub uninterp spec fn json_string_fields(v: serde_jsonrc::value::Value) -> Map<
    Seq<char>,
    Seq<char>,
>;

/// Relies on `serde_jsonrc::value::Value::get` and `Value::as_str`:
/// `get` with a string key returns the field of a JSON object under
/// that key and `None` otherwise, and `as_str` returns the contained
/// string exactly when the field is a JSON string. Both are functions
/// of the value and the key alone; `json_string_fields` names their
/// composition.
#[verifier::external_body]
fn get_string_field(v: &serde_jsonrc::value::Value, key: &str) -> (r: Option<String>)
    ensures
        r is Some <==> json_string_fields(*v).dom().contains(key@),
        r matches Some(s) ==> s@ == json_string_fields(*v)[key@],
{
    match v.get(key) {
        Some(field) => match field.as_str() {
            Some(s) => Some(s.to_owned()),
            None => None,
        },
        None => None,
    }
}

/// Read-only metadata of the artifact being fetched. The expected byte
/// length is used for progress reporting; nothing here is validated by
/// the provider.
pub struct ArtifactEntry {
    pub size: u64,
}

/// Evidence that the caller already holds the cooperative,
/// filesystem-backed lock for the artifact's shard. The lock itself is
/// an external primitive; providers neither acquire nor release it,
/// they only rely on the caller holding it.
pub struct FileLock {}

impl FileLock {
    pub fn new() -> FileLock {
        FileLock {  }
    }
}

/// What a transfer needs to know besides the source and destination: a
/// display name for the artifact, the expected content length, and
/// whether to show progress.
pub struct FetchContext {
    pub artifact_name: String,
    pub content_length: u64,
    pub show_progress: bool,
}

/// Builds the context handed to the transfer mechanism: the URL is the
/// display name and the expected length comes from the artifact entry.
pub fn http_fetch_context(url: &str, artifact_entry: &ArtifactEntry, show_progress: bool) -> (c:
    FetchContext)
    ensures
        c.artifact_name@ == url@,
        c.content_length == artifact_entry.size,
        c.show_progress == show_progress,
{
    FetchContext { artifact_name: url.to_owned(), content_length: artifact_entry.size, show_progress }
}

/// Why a fetch failed: the provider configuration lacks a required
/// field, or the transfer itself failed, with the failing URL attached.
#[derive(Debug)]
pub enum FetchError {
    Config { detail: String },
    Transfer { url: String, detail: String },
}

/// What one transfer request was asked to do, recorded as a ghost value
/// so that the provider's contract can say what it handed to the
/// transfer mechanism.
pub struct TransferRequest {
    pub url: Seq<char>,
    pub destination: Seq<char>,
    pub artifact_name: Seq<char>,
    pub content_length: u64,
    pub show_progress: bool,
}

/// The transfer mechanism behind the HTTP provider: given a URL, a
/// destination path and a fetch context, place the transferred bytes at
/// the destination or report why not. Implementations live outside this
/// crate and nothing is assumed of their outcome.
pub trait Transfer {
    fn get_request(&self, url: &str, destination: &str, context: &FetchContext) -> Result<
        (),
        String,
    >;
}

/// The capability every fetch provider implements: fetch the artifact
/// described by `provider_config` and `artifact_entry` into
/// `destination`, while the caller holds `fetch_lock`.
pub trait Provider {
    fn fetch_artifact(
        &self,
        provider_config: &serde_jsonrc::value::Value,
        destination: &str,
        fetch_lock: &FileLock,
        artifact_entry: &ArtifactEntry,
    ) -> Result<(), FetchError>;
}

/// The HTTP-backed provider: config schema `{ "url": string }`.
pub struct HttpProvider<T: Transfer> {
    transfer: T,
}

impl<T: Transfer> HttpProvider<T> {
    /// Wraps the transfer mechanism the provider will fetch through.
    pub fn new(transfer: T) -> HttpProvider<T> {
        HttpProvider { transfer }
    }

    /// Fetches the artifact at the configured `url` into `destination`.
    /// A configuration without a string `url` field fails with a config
    /// error before any transfer is attempted; a transfer failure is
    /// reported with that URL attached. The ghost record holds the one
    /// request handed to the transfer mechanism: it exists exactly when
    /// the configuration is good, it asks for the configured URL into
    /// the given destination, the display name is that URL, the
    /// declared length is the entry's size, and progress display is
    /// currently always off.
    pub fn fetch_artifact(
        &self,
        provider_config: &serde_jsonrc::value::Value,
        destination: &str,
        _fetch_lock: &FileLock,
        artifact_entry: &ArtifactEntry,
    ) -> (r: (Result<(), FetchError>, Ghost<Option<TransferRequest>>))
        ensures
            r.0 matches Err(FetchError::Config { .. }) <==> !json_string_fields(
                *provider_config,
            ).dom().contains("url"@),
            r.0 matches Err(FetchError::Transfer { url: u, detail: _ }) ==> u@
                == json_string_fields(*provider_config)["url"@],
            r.0 is Ok ==> json_string_fields(*provider_config).dom().contains("url"@),
            r.1@ is Some <==> json_string_fields(*provider_config).dom().contains("url"@),
            r.1@ matches Some(t) ==> t.url == json_string_fields(*provider_config)["url"@]
                && t.destination == destination@ && t.artifact_name == t.url && t.content_length
                == artifact_entry.size && !t.show_progress,
    {
        let url = match get_string_field(provider_config, "url") {
            Some(url) => url,
            None => {
                return (
                    Err(
                        FetchError::Config {
                            detail: "provider config has no string `url` field".to_owned(),
                        },
                    ),
                    Ghost(None),
                );
            },
        };
        let show_progress = false;
        let context = http_fetch_context(url.as_str(), artifact_entry, show_progress);
        let ghost request = TransferRequest {
            url: url@,
            destination: destination@,
            artifact_name: context.artifact_name@,
            content_length: context.content_length,
            show_progress: context.show_progress,
        };
        match self.transfer.get_request(url.as_str(), destination, &context) {
            Ok(()) => (Ok(()), Ghost(Some(request))),
            Err(detail) => (Err(FetchError::Transfer { url, detail }), Ghost(Some(request))),
        }
    }
}

impl<T: Transfer> Provider for HttpProvider<T> {
    fn fetch_artifact(
        &self,
        provider_config: &serde_jsonrc::value::Value,
        destination: &str,
        fetch_lock: &FileLock,
        artifact_entry: &ArtifactEntry,
    ) -> Result<(), FetchError> {
        HttpProvider::fetch_artifact(
            self,
            provider_config,
            destination,
            fetch_lock,
            artifact_entry,
        ).0
    }
}

} // verus!
