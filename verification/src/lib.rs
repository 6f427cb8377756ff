//! Verified core of a tool for WeChat mini-program packages (`.wxapkg`):
//! decryption of encrypted packages, parsing of the package header and
//! index, the path rules that keep unpacked files inside their directory,
//! and the command line. File system work is left to the caller.

pub mod cli;
pub mod decrypter;
pub mod encoding;
pub mod logging;
pub mod text;
pub mod unpacker;
