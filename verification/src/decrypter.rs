//! Decryption of encrypted packages, and what can be learnt from a package's
//! path: its normalized form and the app id (`wxid`) that keys it.
//!
//! An encrypted package starts with a 6-byte header, then 1024 bytes of
//! AES-256-CBC ciphertext under a key derived from the wxid by PBKDF2, then
//! the rest of the package, each byte XORed with one key byte.

use crate::text::{
    chars_of, lemma_split_concat, lemma_split_no_slash, lemma_split_slash_nonempty, no_slash,
    split_parts, split_slash, string_of,
};
use aes::cipher::block_padding::NoPadding;
use aes::cipher::generic_array::GenericArray;
use aes::cipher::{BlockDecryptMut, KeyIvInit};
use vstd::prelude::*;
use vstd::string::StringSliceAdditionalSpecFns;

verus! {

/// Suffix of the file that a decrypted package is written to.
pub const DEFAULT_DECRYPT_TO: &'static str = "_decrypt";

/// Bytes before the encrypted block.
pub const HEADER_OFFSET: usize = 6;

/// Length of the AES-encrypted block.
pub const ENCRYPTED_BLOCK_LEN: usize = 1024;

/// Bytes of the decrypted block that belong to the package.
pub const KEEP_LEN: usize = 1023;

/// PBKDF2 iteration count.
pub const PBKDF2_ROUNDS: u32 = 1000;

/// XOR key used when the wxid is shorter than two bytes.
pub const DEFAULT_XOR_KEY: u8 = 0x66;

/// The CBC initialisation vector, the ASCII text `the iv: 16 bytes`.
pub const DEFAULT_IV: [u8; 16] = [
    116, 104, 101, 32, 105, 118, 58, 32, 49, 54, 32, 98, 121, 116, 101, 115,
];

/// The PBKDF2 salt, the ASCII text `saltiest`.
pub const DEFAULT_SALT: [u8; 8] = [115, 97, 108, 116, 105, 101, 115, 116];

/// What `pbkdf2::pbkdf2_hmac_array::<Sha1, 32>(password, salt, rounds)`
/// returns: the 32-byte PBKDF2-HMAC-SHA1 derived key.
pub uninterp spec fn pbkdf2_hmac_sha1_32(password: Seq<u8>, salt: Seq<u8>, rounds: u32) -> Seq<u8>;

/// What AES-256 in CBC mode without padding (`cbc::Decryptor<aes::Aes256>`)
/// decrypts `ciphertext` to under `key` and `iv`.
pub uninterp spec fn aes256_cbc_decrypt(key: Seq<u8>, iv: Seq<u8>, ciphertext: Seq<u8>) -> Seq<u8>;

/// Derives a 32-byte key with PBKDF2-HMAC-SHA1
/// (`pbkdf2::pbkdf2_hmac_array::<sha1::Sha1, 32>`). The contract names the
/// result and states its length, which the array type fixes.
#[verifier::external_body]
fn derive_key(password: &[u8], salt: &[u8], rounds: u32) -> (key: Vec<u8>)
    ensures
        key@ == pbkdf2_hmac_sha1_32(password@, salt@, rounds),
        key@.len() == 32,
{
    pbkdf2::pbkdf2_hmac_array::<sha1::Sha1, 32>(password, salt, rounds).to_vec()
}

/// Decrypts whole blocks with AES-256-CBC and no padding
/// (`cbc::Decryptor::<aes::Aes256>::new`, then `decrypt_padded_vec_mut::<NoPadding>`).
/// With a 32-byte key, a 16-byte IV and a length that is a multiple of 16,
/// the crate returns `Ok` with one output byte per input byte; the contract
/// names the plaintext and states that length.
#[verifier::external_body]
fn cbc_decrypt(key: &[u8], iv: &[u8; 16], ciphertext: &[u8]) -> (plain: Vec<u8>)
    requires
        key@.len() == 32,
        ciphertext@.len() % 16 == 0,
    ensures
        plain@ == aes256_cbc_decrypt(key@, iv@, ciphertext@),
        plain@.len() == ciphertext@.len(),
{
    let dec = cbc::Decryptor::<aes::Aes256>::new(GenericArray::from_slice(key), iv.into());
    match dec.decrypt_padded_vec_mut::<NoPadding>(ciphertext) {
        Ok(plain) => plain,
        Err(_) => Vec::new(),
    }
}

/// `s` with every backslash turned into a forward slash.
pub open spec fn spec_format_from(s: Seq<char>) -> Seq<char> {
    s.map_values(|c: char| if c == '\\' { '/' } else { c })
}

/// Normalizes a path to forward slashes.
pub fn format_from(from: &str) -> (r: String)
    ensures
        r@ == spec_format_from(from@),
{
    let v = chars_of(from);
    let mut out: Vec<char> = Vec::new();
    for i in 0..v.len()
        invariant
            v@ == from@,
            out@ == spec_format_from(v@.take(i as int)),
    {
        let c = v[i];
        if c == '\\' {
            out.push('/');
        } else {
            out.push(c);
        }
        assert(spec_format_from(v@.take(i + 1)) =~= spec_format_from(v@.take(i as int)).push(
            if c == '\\' {
                '/'
            } else {
                c
            },
        ));
    }
    assert(v@.take(v@.len() as int) =~= v@);
    string_of(&out)
}

/// `s` begins with the characters `wx`.
pub open spec fn starts_with_wx(s: Seq<char>) -> bool {
    s.len() >= 2 && s[0] == 'w' && s[1] == 'x'
}

/// The wxid that a normalized path names: its third part from the end
/// (`.../{wxid}/{n}/__APP__.wxapkg`), if there is one and it starts with `wx`.
pub open spec fn spec_get_wxid(from: Seq<char>) -> Option<Seq<char>> {
    let parts = split_slash(from);
    if parts.len() < 3 {
        None
    } else if starts_with_wx(parts[parts.len() - 3]) {
        Some(parts[parts.len() - 3])
    } else {
        None
    }
}

/// Infers the wxid from a path of the form `.../packages/{wxid}/{n}/__APP__.wxapkg`.
/// A wxid is only taken as valid if it starts with `wx`.
pub fn get_wxid(from: &str) -> (r: Option<String>)
    ensures
        match spec_get_wxid(from@) {
            Some(w) => r matches Some(s) && s@ == w,
            None => r is None,
        },
{
    let parts = split_parts(from);
    let n = parts.len();
    if n < 3 {
        return None;
    }
    let candidate = &parts[n - 3];
    if candidate.len() >= 2 && candidate[0] == 'w' && candidate[1] == 'x' {
        Some(string_of(candidate))
    } else {
        None
    }
}

/// The XOR key for a wxid: the second-to-last byte of its UTF-8 encoding,
/// or [`DEFAULT_XOR_KEY`] when it has fewer than two bytes.
pub open spec fn spec_xor_key(wxid_bytes: Seq<u8>) -> u8 {
    if wxid_bytes.len() >= 2 {
        wxid_bytes[wxid_bytes.len() - 2]
    } else {
        DEFAULT_XOR_KEY
    }
}

/// Every byte of `data` XORed with `key`.
pub open spec fn xor_all(data: Seq<u8>, key: u8) -> Seq<u8> {
    data.map_values(|b: u8| b ^ key)
}

/// The byte key with which the tail of a package is XORed.
pub fn xor_key(wxid: &str) -> (k: u8)
    ensures
        k == spec_xor_key(wxid.spec_bytes()),
{
    let bytes = wxid.as_bytes();
    if bytes.len() >= 2 {
        bytes[bytes.len() - 2]
    } else {
        DEFAULT_XOR_KEY
    }
}

/// The plaintext of an encrypted package `data` whose wxid has UTF-8 bytes
/// `wxid_bytes`: the first 1023 bytes of the AES-decrypted block (bytes
/// 6..1030), then every byte after that XORed with the wxid's key byte.
pub open spec fn spec_decrypt(data: Seq<u8>, wxid_bytes: Seq<u8>, iv: Seq<u8>, salt: Seq<u8>) -> Seq<
    u8,
> {
    let key = pbkdf2_hmac_sha1_32(wxid_bytes, salt, PBKDF2_ROUNDS);
    let block = data.subrange(HEADER_OFFSET as int, (HEADER_OFFSET + ENCRYPTED_BLOCK_LEN) as int);
    aes256_cbc_decrypt(key, iv, block).take(KEEP_LEN as int) + xor_all(
        data.skip((HEADER_OFFSET + ENCRYPTED_BLOCK_LEN) as int),
        spec_xor_key(wxid_bytes),
    )
}

/// Why a package could not be decrypted.
#[derive(Clone, Copy, Debug, PartialEq, Eq, Structural)]
pub enum DecryptError {
    /// The package is shorter than its header and encrypted block.
    TooSmall,
}

impl DecryptError {
    /// The message shown for this error.
    pub open spec fn spec_message(self) -> Seq<char> {
        match self {
            DecryptError::TooSmall => "文件过小，不是有效的 wxapkg"@,
        }
    }

    /// The message shown for this error.
    pub fn message(&self) -> (m: String)
        ensures
            m@ == self.spec_message(),
    {
        match self {
            DecryptError::TooSmall => String::from_str("文件过小，不是有效的 wxapkg"),
        }
    }
}

/// The decrypted package, given the decrypted block `block_plain` of the
/// encrypted package `data` and the XOR key byte: the first 1023 bytes of the
/// block, then each byte of `data` after the block XORed with `key`.
pub fn assemble_decrypted(block_plain: &[u8], data: &[u8], key: u8) -> (out: Vec<u8>)
    requires
        block_plain@.len() >= KEEP_LEN,
        data@.len() >= HEADER_OFFSET + ENCRYPTED_BLOCK_LEN,
    ensures
        out@ == block_plain@.take(KEEP_LEN as int) + xor_all(
            data@.skip((HEADER_OFFSET + ENCRYPTED_BLOCK_LEN) as int),
            key,
        ),
{
    let mut out: Vec<u8> = Vec::new();
    for i in 0..KEEP_LEN
        invariant
            block_plain@.len() >= KEEP_LEN,
            out@ == block_plain@.take(i as int),
    {
        out.push(block_plain[i]);
        assert(block_plain@.take(i + 1) =~= block_plain@.take(i as int).push(block_plain@[i as int]));
    }
    let start = HEADER_OFFSET + ENCRYPTED_BLOCK_LEN;
    let ghost prefix = out@;
    let ghost tail = data@.skip(start as int);
    for j in start..data.len()
        invariant
            start <= data@.len(),
            tail == data@.skip(start as int),
            out@ == prefix + xor_all(tail.take(j - start), key),
    {
        out.push(data[j] ^ key);
        assert(xor_all(tail.take(j + 1 - start), key) =~= xor_all(tail.take(j - start), key).push(
            data@[j as int] ^ key,
        ));
    }
    assert(tail.take(data@.len() - start) =~= tail);
    out
}

/// Every byte of `chunk` XORed with `key`: how a piece of the package
/// after the encrypted block is decrypted.
pub fn xor_chunk(chunk: &[u8], key: u8) -> (out: Vec<u8>)
    ensures
        out@ == xor_all(chunk@, key),
{
    let mut out: Vec<u8> = Vec::new();
    for i in 0..chunk.len()
        invariant
            out@ == xor_all(chunk@.take(i as int), key),
    {
        out.push(chunk[i] ^ key);
        assert(xor_all(chunk@.take(i + 1), key) =~= xor_all(chunk@.take(i as int), key).push(
            chunk@[i as int] ^ key,
        ));
    }
    assert(chunk@.take(chunk@.len() as int) =~= chunk@);
    out
}

/// Decrypts the package bytes `data` with the key derived from `wxid` and
/// `salt`, and the CBC vector `iv`.
pub fn decrypt(data: &[u8], wxid: &str, iv: &[u8; 16], salt: &[u8]) -> (r: Result<
    Vec<u8>,
    DecryptError,
>)
    ensures
        data@.len() < HEADER_OFFSET + ENCRYPTED_BLOCK_LEN ==> r == Err::<Vec<u8>, DecryptError>(
            DecryptError::TooSmall,
        ),
        data@.len() >= HEADER_OFFSET + ENCRYPTED_BLOCK_LEN ==> (r matches Ok(out) && out@
            == spec_decrypt(data@, wxid.spec_bytes(), iv@, salt@) && out@.len() == data@.len() - 7),
{
    if data.len() < HEADER_OFFSET + ENCRYPTED_BLOCK_LEN {
        return Err(DecryptError::TooSmall);
    }
    let key = derive_key(wxid.as_bytes(), salt, PBKDF2_ROUNDS);
    let head = cbc_decrypt(
        key.as_slice(),
        iv,
        &data[HEADER_OFFSET..HEADER_OFFSET + ENCRYPTED_BLOCK_LEN],
    );
    Ok(assemble_decrypted(&head, data, xor_key(wxid)))
}

/// Decrypts a package with the standard IV and salt.
pub fn default_decrypt(data: &[u8], wxid: &str) -> (r: Result<Vec<u8>, DecryptError>)
    ensures
        data@.len() < HEADER_OFFSET + ENCRYPTED_BLOCK_LEN ==> r == Err::<Vec<u8>, DecryptError>(
            DecryptError::TooSmall,
        ),
        data@.len() >= HEADER_OFFSET + ENCRYPTED_BLOCK_LEN ==> (r matches Ok(out) && out@
            == spec_decrypt(data@, wxid.spec_bytes(), DEFAULT_IV@, DEFAULT_SALT@) && out@.len()
            == data@.len() - 7),
{
    decrypt(data, wxid, &DEFAULT_IV, &DEFAULT_SALT)
}

/// The path that the decrypted form of the package at `wxapkg_path` is
/// written to.
pub fn decrypted_path(wxapkg_path: &str) -> (r: String)
    ensures
        r@ == wxapkg_path@ + DEFAULT_DECRYPT_TO@,
{
    let mut r = String::from_str(wxapkg_path);
    r.append(DEFAULT_DECRYPT_TO);
    r
}

/// A package path `{prefix}/{wxid}/{n}/{file}`, whose last three parts hold
/// no `/`, names `wxid` as its wxid exactly when `wxid` starts with `wx`,
/// whatever the prefix.
pub proof fn wxid_of_package_path(prefix: Seq<char>, wxid: Seq<char>, n: Seq<char>, file: Seq<char>)
    requires
        no_slash(wxid),
        no_slash(n),
        no_slash(file),
    ensures
        spec_get_wxid(prefix + seq!['/'] + wxid + seq!['/'] + n + seq!['/'] + file) == if starts_with_wx(
            wxid,
        ) {
            Some(wxid)
        } else {
            None
        },
{
    let p1 = prefix + seq!['/'] + wxid;
    let p2 = p1 + seq!['/'] + n;
    lemma_split_concat(prefix, wxid);
    lemma_split_concat(p1, n);
    lemma_split_concat(p2, file);
    lemma_split_no_slash(wxid);
    lemma_split_no_slash(n);
    lemma_split_no_slash(file);
    let parts = split_slash(p2 + seq!['/'] + file);
    assert(parts == split_slash(prefix) + seq![wxid] + seq![n] + seq![file]);
    lemma_split_slash_nonempty(prefix);
    assert(parts[parts.len() - 3] == wxid);
}

/// `s` holds neither `/` nor `\`.
pub open spec fn no_separator(s: Seq<char>) -> bool {
    forall|i: int| 0 <= i < s.len() ==> s[i] != '/' && s[i] != '\\'
}

/// A Windows package path `{prefix}\{wxid}\{n}\{file}`, whose last three parts
/// hold no separator, names `wxid` once normalized, exactly when `wxid`
/// starts with `wx`.
pub proof fn wxid_of_windows_package_path(
    prefix: Seq<char>,
    wxid: Seq<char>,
    n: Seq<char>,
    file: Seq<char>,
)
    requires
        no_separator(wxid),
        no_separator(n),
        no_separator(file),
    ensures
        spec_get_wxid(
            spec_format_from(prefix + seq!['\\'] + wxid + seq!['\\'] + n + seq!['\\'] + file),
        ) == if starts_with_wx(wxid) {
            Some(wxid)
        } else {
            None
        },
{
    let s = prefix + seq!['\\'] + wxid + seq!['\\'] + n + seq!['\\'] + file;
    let np = spec_format_from(prefix);
    assert(spec_format_from(s) =~= np + seq!['/'] + wxid + seq!['/'] + n + seq!['/'] + file);
    wxid_of_package_path(np, wxid, n, file);
}

/// Normalizing removes every backslash, keeps the length, and changes nothing
/// on a second pass.
pub proof fn format_from_normalizes(s: Seq<char>)
    ensures
        spec_format_from(s).len() == s.len(),
        forall|i: int| 0 <= i < s.len() ==> spec_format_from(s)[i] != '\\',
        spec_format_from(spec_format_from(s)) == spec_format_from(s),
{
    assert(spec_format_from(spec_format_from(s)) =~= spec_format_from(s));
}

/// XORing with the same key byte twice gives the bytes back: the tail that
/// decryption produces XORs back to the tail of the encrypted package.
pub proof fn xor_all_involutive(data: Seq<u8>, key: u8)
    ensures
        xor_all(xor_all(data, key), key) == data,
{
    assert forall|i: int| 0 <= i < data.len() implies xor_all(xor_all(data, key), key)[i]
        == data[i] by {
        let b = data[i];
        assert((b ^ key) ^ key == b) by (bit_vector);
    }
    assert(xor_all(xor_all(data, key), key) =~= data);
}

/// A decrypted package is seven bytes shorter than the encrypted one (the
/// 6-byte header and the last byte of the decrypted block are dropped), and
/// each byte after the block is the matching encrypted byte XORed with the
/// key byte.
pub proof fn decrypt_layout(data: Seq<u8>, wxid_bytes: Seq<u8>, iv: Seq<u8>, salt: Seq<u8>)
    requires
        data.len() >= HEADER_OFFSET + ENCRYPTED_BLOCK_LEN,
        aes256_cbc_decrypt(
            pbkdf2_hmac_sha1_32(wxid_bytes, salt, PBKDF2_ROUNDS),
            iv,
            data.subrange(HEADER_OFFSET as int, (HEADER_OFFSET + ENCRYPTED_BLOCK_LEN) as int),
        ).len() == ENCRYPTED_BLOCK_LEN,
    ensures
        spec_decrypt(data, wxid_bytes, iv, salt).len() == data.len() - 7,
        forall|i: int|
            0 <= i < data.len() - 1030 ==> #[trigger] spec_decrypt(data, wxid_bytes, iv, salt)[1023
                + i] == data[1030 + i] ^ spec_xor_key(wxid_bytes),
{
}

/// The tail key of a wxid is the second-to-last byte of its UTF-8 bytes,
/// whatever their length, and `0x66` when there are fewer than two; so a
/// wxid extended by one byte takes its old last byte as the key.
pub proof fn tail_key_is_second_to_last_wxid_byte(wxid_bytes: Seq<u8>, b: u8)
    ensures
        wxid_bytes.len() >= 2 ==> spec_xor_key(wxid_bytes) == wxid_bytes[wxid_bytes.len() - 2],
        wxid_bytes.len() < 2 ==> spec_xor_key(wxid_bytes) == 0x66u8,
        wxid_bytes.len() >= 1 ==> spec_xor_key(wxid_bytes.push(b)) == wxid_bytes.last(),
{
}

/// Every decrypted byte after the first 1023 is the package byte 7 places
/// further on XORed with the second-to-last byte of the wxid (or with
/// `0x66` for a wxid of fewer than two bytes).
pub proof fn tail_bytes_xor_with_wxid_byte(data: Seq<u8>, wxid_bytes: Seq<u8>, iv: Seq<u8>, salt: Seq<u8>)
    requires
        data.len() >= HEADER_OFFSET + ENCRYPTED_BLOCK_LEN,
        aes256_cbc_decrypt(
            pbkdf2_hmac_sha1_32(wxid_bytes, salt, PBKDF2_ROUNDS),
            iv,
            data.subrange(HEADER_OFFSET as int, (HEADER_OFFSET + ENCRYPTED_BLOCK_LEN) as int),
        ).len() == ENCRYPTED_BLOCK_LEN,
    ensures
        forall|i: int|
            0 <= i < data.len() - 1030 && wxid_bytes.len() >= 2 ==> #[trigger] spec_decrypt(
                data,
                wxid_bytes,
                iv,
                salt,
            )[1023 + i] == data[1030 + i] ^ wxid_bytes[wxid_bytes.len() - 2],
        forall|i: int|
            0 <= i < data.len() - 1030 && wxid_bytes.len() < 2 ==> #[trigger] spec_decrypt(
                data,
                wxid_bytes,
                iv,
                salt,
            )[1023 + i] == data[1030 + i] ^ 0x66u8,
{
    decrypt_layout(data, wxid_bytes, iv, salt);
}

/// A package can be decrypted piece by piece: its first 1030 bytes decrypt to
/// the start of the result, and the pieces of the rest, XORed one by one,
/// give the remainder.
pub proof fn decrypt_in_pieces(
    data: Seq<u8>,
    wxid_bytes: Seq<u8>,
    iv: Seq<u8>,
    salt: Seq<u8>,
    pieces: Seq<Seq<u8>>,
)
    requires
        data.len() >= HEADER_OFFSET + ENCRYPTED_BLOCK_LEN,
        data.skip(1030) == pieces.fold_left(Seq::<u8>::empty(), |acc: Seq<u8>, p: Seq<u8>| acc + p),
    ensures
        spec_decrypt(data, wxid_bytes, iv, salt) == spec_decrypt(data.take(1030), wxid_bytes, iv, salt)
            + pieces.fold_left(
            Seq::<u8>::empty(),
            |acc: Seq<u8>, p: Seq<u8>| acc + xor_all(p, spec_xor_key(wxid_bytes)),
        ),
    decreases pieces.len(),
{
    let k = spec_xor_key(wxid_bytes);
    assert(data.take(1030).subrange(6, 1030) =~= data.subrange(6, 1030));
    assert(data.take(1030).skip(1030) =~= Seq::<u8>::empty());
    assert(xor_all(Seq::<u8>::empty(), k) =~= Seq::<u8>::empty());
    lemma_xor_fold(pieces, k);
    assert(spec_decrypt(data.take(1030), wxid_bytes, iv, salt) =~= aes256_cbc_decrypt(
        pbkdf2_hmac_sha1_32(wxid_bytes, salt, PBKDF2_ROUNDS),
        iv,
        data.subrange(6, 1030),
    ).take(1023));
}

proof fn lemma_xor_fold(pieces: Seq<Seq<u8>>, k: u8)
    ensures
        xor_all(pieces.fold_left(Seq::<u8>::empty(), |acc: Seq<u8>, p: Seq<u8>| acc + p), k)
            == pieces.fold_left(Seq::<u8>::empty(), |acc: Seq<u8>, p: Seq<u8>| acc + xor_all(p, k)),
    decreases pieces.len(),
{
    let f = |acc: Seq<u8>, p: Seq<u8>| acc + p;
    let g = |acc: Seq<u8>, p: Seq<u8>| acc + xor_all(p, k);
    if pieces.len() == 0 {
        assert(xor_all(Seq::<u8>::empty(), k) =~= Seq::<u8>::empty());
    } else {
        lemma_xor_fold(pieces.drop_last(), k);
        let a = pieces.drop_last().fold_left(Seq::<u8>::empty(), f);
        assert(pieces.fold_left(Seq::<u8>::empty(), f) == a + pieces.last());
        assert(pieces.fold_left(Seq::<u8>::empty(), g) == pieces.drop_last().fold_left(
            Seq::<u8>::empty(),
            g,
        ) + xor_all(pieces.last(), k));
        assert(xor_all(a + pieces.last(), k) =~= xor_all(a, k) + xor_all(pieces.last(), k));
    }
}

/// The 6-byte header of an encrypted package plays no part in its
/// decryption.
pub proof fn decrypt_ignores_header(
    d1: Seq<u8>,
    d2: Seq<u8>,
    wxid_bytes: Seq<u8>,
    iv: Seq<u8>,
    salt: Seq<u8>,
)
    requires
        d1.len() == d2.len(),
        d1.len() >= HEADER_OFFSET + ENCRYPTED_BLOCK_LEN,
        forall|i: int| HEADER_OFFSET <= i < d1.len() ==> d1[i] == d2[i],
    ensures
        spec_decrypt(d1, wxid_bytes, iv, salt) == spec_decrypt(d2, wxid_bytes, iv, salt),
{
    assert(d1.subrange(6, 1030) =~= d2.subrange(6, 1030));
    assert(d1.skip(1030) =~= d2.skip(1030));
}

} // verus!
