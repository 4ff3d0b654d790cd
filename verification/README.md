# telepath

Telepath is a small RPC protocol between a host and a microcontroller
target: the target registers `#[command]` functions, the host discovers them
with their postcard schemas and calls them over a byte stream framed with
COBS (requests) and rzCOBS (responses).

This crate holds the protocol's logic, verified with Verus:

- `cmd_id`: command IDs derived by FNV-1a from a command's name and types,
  never equal to the discovery ID.
- `framing`, `postcard_wire`, `wire`: frame encoding and decoding, the frame
  accumulator, the wire packets and varint/zigzag layouts.
- `server`, `resource`, `command`: target-side dispatch, the layout of the
  resource storage, and the planning step of the `#[command]` attribute.
- `client`, `schema`: the host's call and discovery steps and its schema
  cache.
- `json_encode`, `json_decode`, `roundtrip`, `schema_json`, `data_model`:
  the schema-driven codec between JSON and postcard, the law that decoding
  gives back what encoding wrote, and JSON Schema generation.
- `cli`, `shell`, `mcp`, `tools`, `text`: the rules of the host tools
  (options, help text, completion, result lines, MCP tool list and prompts).

`tests/` exercises the library; `app/` is the `telepath` command-line program
(serial transport, interactive shell, MCP server over stdio) built around it.
