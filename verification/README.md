# hive

hive runs agents in containers of their own. `src/` is the verified library: every function
there has a contract, and Verus proves it. Ten wrappers round calls into `serde_json`, `sha2`,
`hex` and the standard library, and the `assume_specification` of `char::is_whitespace`, are
believed instead: each says in its comment what is claimed of the call.

- `agent`: the types of an agent's spec, their defaults, the modes of credential files, the
  broker keys of identities, the hash of a spec.
- `launch`: finding the Docker command, finding and resolving a spec, the command lines.
- `session`: attaching an agent's MCP servers to a `session/new` request. Every other line is
  passed on as it is.
- `headers`: asking the broker for the headers of an MCP server, and reading its reply.
- `json`: JSON documents as plain values. Reading and writing their text is left to
  `serde_json`, behind a few trusted items.
- `label`: SHA-256 and hexadecimal, from `sha2` and `hex`, behind trusted items.
- `text`: white space, words, prefixes, octal numbers.

`app/` is the program around it: processes, threads, files, variables, TOML. The catalog of
harnesses is that of `hive-core`.
