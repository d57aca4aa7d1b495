//! Core of a server speaking a subset of the Kafka wire protocol: the byte
//! codec, request framing, the cluster-metadata log reader, and the handlers
//! that turn a request into a response body.
pub mod api;
pub mod api_versions;
pub mod codec;
pub mod describe_topics;
pub mod dispatch;
pub mod fetch;
pub mod frame;
pub mod log_dir;
pub mod metadata;
pub mod produce;
