use aes::cipher::block_padding::NoPadding;
use aes::cipher::{BlockEncryptMut, KeyIvInit};
use wxapkg::decrypter::{
    assemble_decrypted, decrypt, decrypted_path, default_decrypt, format_from, get_wxid, xor_chunk,
    xor_key, DecryptError, DEFAULT_IV, DEFAULT_SALT,
};

/// Encrypts `plain` the way packages are encrypted: 6 header bytes, the
/// first 1023 plaintext bytes plus one filler byte under AES-256-CBC, the
/// rest XORed with the key byte.
fn encrypt_package(plain: &[u8], wxid: &str, iv: &[u8; 16], salt: &[u8]) -> Vec<u8> {
    assert!(plain.len() >= 1023);
    let key = pbkdf2::pbkdf2_hmac_array::<sha1::Sha1, 32>(wxid.as_bytes(), salt, 1000);
    let mut block = plain[..1023].to_vec();
    block.push(0x5A);
    let enc = cbc::Encryptor::<aes::Aes256>::new((&key).into(), iv.into())
        .encrypt_padded_vec_mut::<NoPadding>(&block);
    let k = xor_key(wxid);
    let mut out = b"V1MMWX".to_vec();
    out.extend_from_slice(&enc);
    out.extend(plain[1023..].iter().map(|b| b ^ k));
    out
}

#[test]
fn backslashes_become_slashes() {
    assert_eq!(format_from(r"C:\Users\me\__APP__.wxapkg"), "C:/Users/me/__APP__.wxapkg");
    assert_eq!(format_from("/already/fine"), "/already/fine");
    assert_eq!(format_from(""), "");
    let once = format_from(r"a\b/c\");
    assert_eq!(format_from(&once), once);
    assert!(!once.contains('\\'));
}

#[test]
fn wxid_is_taken_from_package_paths() {
    assert_eq!(
        get_wxid("/Users/me/.wxapplet/packages/wx1234567890abcdef/12/__APP__.wxapkg").as_deref(),
        Some("wx1234567890abcdef")
    );
    assert_eq!(get_wxid("wxq/1/f").as_deref(), Some("wxq"));
    assert_eq!(get_wxid("/x/packages/abc/4/__APP__.wxapkg"), None);
    assert_eq!(get_wxid("a/b"), None);
    assert_eq!(get_wxid("w/1/f"), None);
    assert_eq!(get_wxid("/wxa/b/"), Some("wxa".to_string()));
}

#[test]
fn xor_key_is_second_to_last_byte() {
    assert_eq!(xor_key("wx1234"), b'3');
    assert_eq!(xor_key("ab"), b'a');
    assert_eq!(xor_key("a"), 0x66);
    assert_eq!(xor_key(""), 0x66);
}

#[test]
fn decrypts_an_encrypted_package() {
    let plain: Vec<u8> = (0..3000u32).map(|i| (i * 7 % 251) as u8).collect();
    let wxid = "wx1234567890abcdef";
    let encrypted = encrypt_package(&plain, wxid, &DEFAULT_IV, &DEFAULT_SALT);
    assert_eq!(encrypted.len(), plain.len() + 7);
    let decrypted = default_decrypt(&encrypted, wxid).unwrap();
    assert_eq!(decrypted, plain);
    assert_ne!(&encrypted[6..1029], &plain[..1023]);
}

#[test]
fn decrypts_with_given_iv_and_salt() {
    let plain: Vec<u8> = vec![b'p'; 1023];
    let iv = *b"0123456789abcdef";
    let encrypted = encrypt_package(&plain, "wxz", &iv, b"pepper");
    assert_eq!(decrypt(&encrypted, "wxz", &iv, b"pepper").unwrap(), plain);
}

#[test]
fn short_packages_are_refused() {
    let err = default_decrypt(&[0u8; 1029], "wx1").unwrap_err();
    assert_eq!(err, DecryptError::TooSmall);
    assert_eq!(err.message(), "文件过小，不是有效的 wxapkg");
    assert_eq!(default_decrypt(&[0u8; 1030], "wx1").unwrap().len(), 1023);
}

#[test]
fn decrypted_file_path() {
    assert_eq!(decrypted_path("/a/__APP__.wxapkg"), "/a/__APP__.wxapkg_decrypt");
}

#[test]
fn standard_iv_and_salt() {
    assert_eq!(&DEFAULT_IV, b"the iv: 16 bytes");
    assert_eq!(&DEFAULT_SALT, b"saltiest");
}

#[test]
fn header_bytes_do_not_matter() {
    let plain: Vec<u8> = (0..1500u32).map(|i| (i % 256) as u8).collect();
    let mut encrypted = encrypt_package(&plain, "wxhead", &DEFAULT_IV, &DEFAULT_SALT);
    let first = default_decrypt(&encrypted, "wxhead").unwrap();
    encrypted[..6].copy_from_slice(b"xxxxxx");
    assert_eq!(default_decrypt(&encrypted, "wxhead").unwrap(), first);
}

#[test]
fn tail_xors_back() {
    let plain: Vec<u8> = (0..1100u32).map(|i| (i * 3 % 256) as u8).collect();
    let encrypted = encrypt_package(&plain, "wx42", &DEFAULT_IV, &DEFAULT_SALT);
    let decrypted = default_decrypt(&encrypted, "wx42").unwrap();
    let k = xor_key("wx42");
    let again: Vec<u8> = decrypted[1023..].iter().map(|b| b ^ k).collect();
    assert_eq!(&again[..], &encrypted[1030..]);
}

#[test]
fn decrypted_package_is_unpacked_beside_it() {
    let decrypted = decrypted_path("__APP__.wxapkg");
    assert_eq!(
        wxapkg::unpacker::unpack_dir_name(&decrypted),
        "__APP__.wxapkg_decrypt_unpack"
    );
}

#[test]
fn decrypted_block_and_tail_are_assembled() {
    let block: Vec<u8> = (0..1024u32).map(|i| (i % 256) as u8).collect();
    let mut data = vec![0u8; 1030];
    data.extend_from_slice(&[1, 2, 0xFF]);
    let out = assemble_decrypted(&block, &data, 3);
    assert_eq!(out.len(), 1026);
    assert_eq!(&out[..1023], &block[..1023]);
    assert_eq!(&out[1023..], &[2, 1, 0xFC]);
}

#[test]
fn chunks_are_xored_with_the_key() {
    assert_eq!(xor_chunk(&[0x00, 0xFF, 0x33], 0x33), vec![0x33, 0xCC, 0x00]);
    assert_eq!(xor_chunk(&[], 0x12), Vec::<u8>::new());
    assert_eq!(xor_chunk(&xor_chunk(b"abc", 7), 7), b"abc".to_vec());
}

#[test]
fn decrypting_in_pieces_matches_decrypting_whole() {
    let plain: Vec<u8> = (0..5000u32).map(|i| (i * 13 % 256) as u8).collect();
    let wxid = "wx0011223344";
    let encrypted = encrypt_package(&plain, wxid, &DEFAULT_IV, &DEFAULT_SALT);
    let whole = default_decrypt(&encrypted, wxid).unwrap();
    let mut pieces = default_decrypt(&encrypted[..1030], wxid).unwrap();
    assert_eq!(pieces.len(), 1023);
    let key = xor_key(wxid);
    for chunk in encrypted[1030..].chunks(777) {
        pieces.extend(xor_chunk(chunk, key));
    }
    assert_eq!(pieces, whole);
    assert_eq!(pieces, plain);
}
