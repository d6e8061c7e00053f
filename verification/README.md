# hive

Streams, buffering, object framing and indented logging, verified with Verus.

- `src/` is the verified library.
  - `io`: the modelled stream traits `InputStream` / `OutputStream` (a
    stream is described by the bytes it has handed out or accepted), the raw
    traits `ByteReader` / `ByteWriter` that operating-system streams
    implement, the standard and buffered streams, the stream over bytes in
    memory (whose whole content is known in advance, so that every read of
    it is pinned down), `copy` and `process_stream`.
  - `io::serialisation`: serialiser handles and object streams, whose frames
    are an eight-byte big-endian length followed by the payload.
  - `log`: the `Logger` trait with its margin and indicator formatting, and
    the standard and file loggers.
  - `containers`, `control`, `dev`, `tester`, `text`: small supporting items.
- `app/` holds what touches the operating system: files, standard output,
  the environment, privilege escalation through `sudo2`, and the serde-based
  encoders (`serde_json`, `ciborium`, `bincode`).
- `tests/` exercises the library on concrete values.
