# Codex account switcher

Keeps several Codex accounts side by side, switches between them, imports
accounts that were bought at KeyCrop, and shows their rate limits.

The library under `src/` holds the logic, and Verus proves it against the
contracts of its functions:

- `text`, `double`, `json`, `clock`: strings, doubles, JSON values, the clock
  and fresh identifiers;
- `auth`: what identifies an account, and how authorisations are found in what
  a shop delivers;
- `cookie`: how a pasted cookie becomes the value of a header;
- `profiles`: adding, finding, activating and deleting accounts, and taking
  over the tokens that Codex rotates;
- `keycrop`: requests, their answers, and the import of purchases;
- `paths`: where files lie and in which steps they are written;
- `probe`: asking Codex for rate limits.

Proof functions whose names begin with `law_` state what holds across several
functions. Functions marked `external_body` call other crates; their contracts
are believed, and the comment above each says what it claims.

`app/` does what the library decides: it reads and writes files, talks to the
keyring, the network and the Codex process, and opens the window with Tauri.
`tests/` runs the library on concrete values.
