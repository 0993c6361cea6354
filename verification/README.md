# proteus

A multi-call Unix userland (`cat`, `ls`, `grep`, `sed`, `awk`, `tar`,
`gzip`, `find`, and many more) whose logic is written in Verus and proved
against its contracts.

## Layout

- `src/` is the verified library.
  - `args`, `glob`, `regex`, `utf8`, `text`, `path`, `permissions`,
    `locale`, `compliance`, `sandbox`, `platform`, `io`, `error`: the shared
    core (option parsing, pattern matching, mode strings, sandbox policies,
    the process table, error messages).
  - `applets/`: the rules of each applet, as functions from plain values
    to plain values (option parsing, line selection, formatting, archive
    and container framing, state machines that a reading loop drives).
- `app/` is ordinary Rust around the library: reading files and streams,
  writing output, system calls through `libc`, and the loops that feed
  the library's state machines.
- `tests/` runs the library on concrete inputs.

The DEFLATE coding of `gzip` is `miniz_oxide`'s; the library calls it
through a small number of trusted wrappers whose contracts are stated in
`src/applets/gzip.rs`.
