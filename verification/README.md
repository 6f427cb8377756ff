# wxapkg

A verified library for WeChat mini-program packages (`.wxapkg`), with a
small command-line program around it.

    wxapkg <path> [-w <wxid>] [-q | -v]

`path` is a package file or a directory that is searched for packages.
An unencrypted package is unpacked into `<file>_unpack/`; an encrypted one
is first decrypted into `<file>_decrypt` and then unpacked into
`<file>_decrypt_unpack/`. The wxid that keys an encrypted package is taken
from `-w`, or from a path of the form `.../packages/{wxid}/{n}/__APP__.wxapkg`.

Layout:

- `src/` — the library, with its proofs:
  - `decrypter` — path normalization, wxid inference, package decryption
    (PBKDF2-HMAC-SHA1 and AES-256-CBC from the `pbkdf2`, `sha1`, `aes` and
    `cbc` crates, XOR for the rest);
  - `unpacker` — the header and index parser, entry bounds, safe output paths;
  - `encoding` — the package layout as an encoder, and the proof that the
    parser reads back what it encodes;
  - `cli` — argument parsing, the decisions of a run, batch reports;
  - `logging` — verbosity levels;
  - `text` — character helpers.
- `app/` — the program: argument and file system handling, printing.
- `tests/` — tests of the library.
