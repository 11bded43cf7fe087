# ogt

Runs a command and watches the size of what it prints. Output below a token
threshold reaches the caller byte for byte. Output above it is written to disk in
full and, if it is text, shown as a short summary: the first lines, the last lines,
and the path of the full output. Output that is not text is never summarised; it is
copied to the caller unchanged.

- `src/` is the verified library. It decides; it performs no I/O.
  - `runner::spill`: the state machine of one stream. `runner::ring`: the bounded
    window over its end. `runner::scan`: telling text from anything else as the bytes
    go by. `runner::drain`: driving a sink over chunks in memory. `runner::laws`: what
    holds of every stream, however it is cut into chunks.
  - `runner::spawn`: what follows from a run once both streams have ended.
    `runner::steps`: in which order it is carried out.
  - `runner::parts`: paths as components, on any platform: where they lead, what they
    end in, and the recognition of arguments that read a fold back. `runner::paths`:
    taking slash-separated paths apart. `runner::path_laws`: what holds of them.
  - `fold`: the summary, the token estimate, and `fold::laws`.
  - `init::shims`: the text of PATH shims.
- `tests/` runs the library on concrete values.
- `app/` is the ordinary Rust around it: processes, pipes, threads and files. On
  platforms whose paths are not slash-separated it hands the library the components
  that `std::path` finds in them, and native strings as their text.

What is trusted rather than proved stands in `src/text.rs`: `std::str::from_utf8`
and `String::from_utf8_lossy`.
