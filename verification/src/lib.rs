//! A Pact plugin for server-sent events (SSE): the content format, its
//! comparison, and the decisions behind the plugin's gRPC operations.
pub mod text;
pub mod sse_content;
pub mod json;
pub mod plugin;
pub mod mock_server;
pub mod rules;
