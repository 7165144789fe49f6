# pact_sse_plugin

A Pact plugin for server-sent events (SSE), written in Verus.

- `src/` is the verified library:
  - `text`: lines, trimming, decimal numbers and UTF-8 helpers;
  - `sse_content`: the SSE text format (reading, writing, comparing event
    streams under matching rules), with the proofs that written events read
    back unchanged;
  - `rules`: what each matching rule accepts of a text value, and the rules
    Pact builds from rule attributes and matching expressions;
  - `json`: protobuf structured values and their JSON form;
  - `plugin`: the answers to the plugin protocol's requests (catalogue,
    comparison of bodies under the request's rules, contents configured from
    matching expressions, generated contents);
  - `mock_server`: the registry of mock servers and what a mock server writes.
- `app/` is the gRPC program around it: it converts the protocol's messages to
  and from the library's types, runs the server and the mock servers.
- `tests/` runs the library on concrete inputs.
