use std::cell::RefCell;
use std::rc::Rc;

use dotslash_cache::http_provider::{
    http_fetch_context, ArtifactEntry, FetchContext, FetchError, FileLock, HttpProvider, Provider,
    Transfer,
};

use nix::fcntl::{open, OFlag};
use nix::sys::stat::Mode;
use nix::unistd::{mkdtemp, read};

fn config(text: &str) -> serde_jsonrc::value::Value {
    serde_jsonrc::from_str(text).unwrap()
}

struct RecordedCall {
    url: String,
    destination: String,
    artifact_name: String,
    content_length: u64,
    show_progress: bool,
}

struct RecordingTransfer {
    calls: Rc<RefCell<Vec<RecordedCall>>>,
    fail: bool,
}

impl RecordingTransfer {
    fn new(fail: bool) -> (Self, Rc<RefCell<Vec<RecordedCall>>>) {
        let calls = Rc::new(RefCell::new(Vec::new()));
        (RecordingTransfer { calls: Rc::clone(&calls), fail }, calls)
    }
}

impl Transfer for RecordingTransfer {
    fn get_request(
        &self,
        url: &str,
        destination: &str,
        context: &FetchContext,
    ) -> Result<(), String> {
        self.calls.borrow_mut().push(RecordedCall {
            url: url.to_string(),
            destination: destination.to_string(),
            artifact_name: context.artifact_name.clone(),
            content_length: context.content_length,
            show_progress: context.show_progress,
        });
        if self.fail {
            Err("transfer failed".to_string())
        } else {
            Ok(())
        }
    }
}

/// A transfer that actually materializes bytes at the destination.
struct BytesTransfer {
    payload: &'static [u8],
}

impl Transfer for BytesTransfer {
    fn get_request(
        &self,
        _url: &str,
        destination: &str,
        _context: &FetchContext,
    ) -> Result<(), String> {
        let fd = open(destination, OFlag::O_CREAT | OFlag::O_WRONLY, Mode::from_bits_truncate(0o644))
            .map_err(|e| e.to_string())?;
        nix::unistd::write(&fd, self.payload).map_err(|e| e.to_string())?;
        Ok(())
    }
}

#[test]
fn http_fetch_calls_transfer_with_configured_url() {
    let (transfer, calls) = RecordingTransfer::new(false);
    let provider = HttpProvider::new(transfer);
    let cfg = config("{\"url\": \"https://example/artifact\"}");
    let entry = ArtifactEntry { size: 17 };
    let r = provider.fetch_artifact(&cfg, "/tmp/dest", &FileLock::new(), &entry).0;
    assert!(r.is_ok());
    let calls = calls.borrow();
    assert_eq!(calls.len(), 1);
    assert_eq!(calls[0].url, "https://example/artifact");
    assert_eq!(calls[0].destination, "/tmp/dest");
    assert_eq!(calls[0].artifact_name, "https://example/artifact");
    assert_eq!(calls[0].content_length, 17);
    assert!(!calls[0].show_progress);
}

#[test]
fn http_missing_url_is_a_config_error_with_no_transfer() {
    let (transfer, calls) = RecordingTransfer::new(false);
    let provider = HttpProvider::new(transfer);
    let cfg = config("{}");
    let entry = ArtifactEntry { size: 1 };
    let r = provider.fetch_artifact(&cfg, "/tmp/dest", &FileLock::new(), &entry).0;
    assert!(matches!(r, Err(FetchError::Config { .. })));
    assert_eq!(calls.borrow().len(), 0);
}

#[test]
fn http_non_string_url_is_a_config_error() {
    let (transfer, calls) = RecordingTransfer::new(false);
    let provider = HttpProvider::new(transfer);
    let cfg = config("{\"url\": 7}");
    let entry = ArtifactEntry { size: 1 };
    let r = provider.fetch_artifact(&cfg, "/tmp/dest", &FileLock::new(), &entry).0;
    assert!(matches!(r, Err(FetchError::Config { .. })));
    assert_eq!(calls.borrow().len(), 0);
}

#[test]
fn http_transfer_failure_names_the_url() {
    let (transfer, _calls) = RecordingTransfer::new(true);
    let provider = HttpProvider::new(transfer);
    let cfg = config("{\"url\": \"https://example/broken\"}");
    let entry = ArtifactEntry { size: 1 };
    let r = provider.fetch_artifact(&cfg, "/tmp/dest", &FileLock::new(), &entry).0;
    match r {
        Err(FetchError::Transfer { url, detail }) => {
            assert_eq!(url, "https://example/broken");
            assert_eq!(detail, "transfer failed");
        }
        _ => panic!("expected a transfer error"),
    }
}

#[test]
fn http_fetch_populates_the_destination() {
    let dir = mkdtemp("/tmp/ds-http-XXXXXX").unwrap();
    let destination = format!("{}/artifact", dir.to_str().unwrap());
    let provider = HttpProvider::new(BytesTransfer { payload: b"artifact-bytes" });
    let cfg = config("{\"url\": \"https://example/artifact\"}");
    let entry = ArtifactEntry { size: 14 };
    provider
        .fetch_artifact(&cfg, &destination, &FileLock::new(), &entry)
        .0
        .unwrap();
    let fd = open(destination.as_str(), OFlag::O_RDONLY, Mode::empty()).unwrap();
    let mut buf = [0u8; 64];
    let n = read(&fd, &mut buf).unwrap();
    assert_eq!(&buf[..n], b"artifact-bytes");
}

#[test]
fn provider_trait_dispatch_reaches_the_http_provider() {
    let (transfer, _calls) = RecordingTransfer::new(false);
    let provider = HttpProvider::new(transfer);
    let cfg = config("{}");
    let entry = ArtifactEntry { size: 1 };
    let r = Provider::fetch_artifact(&provider, &cfg, "/tmp/dest", &FileLock::new(), &entry);
    assert!(matches!(r, Err(FetchError::Config { .. })));
}

#[test]
fn fetch_context_builder_is_exact() {
    let entry = ArtifactEntry { size: 5 };
    let ctx = http_fetch_context("https://example/x", &entry, true);
    assert_eq!(ctx.artifact_name, "https://example/x");
    assert_eq!(ctx.content_length, 5);
    assert!(ctx.show_progress);
    let ctx = http_fetch_context("u", &entry, false);
    assert!(!ctx.show_progress);
}
