# rb64

Base 64 encoding and decoding (RFC 4648 alphabet), verified with Verus.

- `src/` is the library. Its functions are verified, except a few small
  wrappers of std calls (`external_body`) whose contracts are trusted:
  - `alphabet`: the 64 digits and the value of each;
  - `encode`: `encode`, with the encoding stated group by group;
  - `decode`: `decode`, which stops at the first `=`, skips line breaks and
    names the first character it cannot read;
  - `encoder`: `Base64Encoder`, a reader that encodes what another reader
    yields;
  - `reader`: a simpler encoding reader that hands out whole groups only;
  - `cli`, `config`: the command-line options of the two front ends;
  - `frontend`: what the window and terminal front ends compute;
  - `laws`: what holds of encoding and decoding together, such as that
    decoding an encoding gives the bytes back.
- `app/` is the program around it: files, standard input and output, the
  terminal front end (ratatui), the window front end (fltk), and the C
  bindings. The window front end sits in `app/gui.rs` behind a `gui`
  feature that is not declared, so it is not built and nothing launches it.
- `tests/` runs the library on concrete values.
