//! Host side of the framed request/response protocol that power-controller devices speak
//! over USB: the frame codec, the per-family session drivers with their retry policy, the
//! registry of resolved devices, and the update-bundle parser.

/// Errors of every layer.
pub mod error;
/// Requests and their wire form.
pub mod request;
/// Fixed-size frames: length frames, content frames, decoding.
pub mod packet;
/// The JSON values that replies and bundles are read as.
pub mod json;
/// The byte-moving capability that sessions drive.
pub mod driver;
/// The K64 session protocol: handshake, transfer, error envelopes, retry.
pub mod k64;
/// The M5 placeholder driver.
pub mod m5;
/// Device self-descriptions.
pub mod about;
/// Device families and resolved device metadata.
pub mod device;
/// Update bundles and the requests that send them.
pub mod update;
/// The device registry, update progress, and the transport's lifecycle.
pub mod registry;

pub use request::Request;
