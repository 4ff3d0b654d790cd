//! Telepath: a small RPC protocol between a host and a microcontroller target.
//!
//! The crate holds the protocol's logic: command-ID derivation, frame
//! encoding and accumulation, target-side dispatch, the host-side schema
//! cache and call/discovery state machines, the planning step that turns an
//! annotated command signature into its registry metadata, the schema-driven
//! codec between JSON and postcard with its JSON Schemas, and the rules of
//! the host tools (shell help, completion, MCP tools and prompts).

pub mod cli;
pub mod client;
pub mod cmd_id;
pub mod command;
pub mod data_model;
pub mod framing;
pub mod json_decode;
pub mod json_encode;
pub mod mcp;
pub mod postcard_wire;
pub mod resource;
pub mod roundtrip;
pub mod schema;
pub mod schema_json;
pub mod server;
pub mod shell;
pub mod text;
pub mod tools;
pub mod wire;
pub mod wire_layout;
