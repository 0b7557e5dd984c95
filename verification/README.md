# session_wrapper

A wrapper around a coding agent's command-line client. It keeps several
accounts and profiles apart: each account gets its own configuration
directory, each profile is composed from ordered settings pieces into one
settings entry, and each terminal session is recorded so that stale ones can
be collected.

## Layout

- `src/` is the verified library, written in Verus. It holds the decisions
  and data of the program:
  - argument splitting and command classification (`argv`, `invocation`);
  - storage paths and configuration layering (`paths`, `resolve`, `config`);
  - the settings composition with its array strategies and provenance (`merge`,
    `strategy`, `pointer`, `doc`);
  - the session identity and its collection rules (`agent`, `terminal`,
    `namespace`, `peers`, `witness`, `session`);
  - account metadata and login decisions (`account`, `login`, `secret`);
  - the doctor report rows and their verdict (`checks`, `doctor`, `version`);
  - log line rendering (`logging`).

  Every public function states its result in `ensures`. The laws of the
  library are public proof functions named `law_*`.
- `app/` is the program around it: command-line parsing, file and terminal
  I/O, running the child, JSON/YAML/TOML decoding and log output.
- `tests/` exercises the library on concrete values.

The only outside call made from the library is SHA-256 (`sha2`), behind
`digest::sha256`; a few standard-library operations on strings are trusted
the same way (`encoding`, `text`).
