use wxapkg::unpacker::{
    header_region_len, host_path_style, plan_unpack, read_header, resolve_safe_path, safe_relative_path,
    unpack_dir_name, validate_entry_bounds, validate_file_layout, Entry, HeaderError, HeaderField,
    PathStyle, HEADER_FIRST, HEADER_LAST, INDEX_MIN_LEN, MAX_NAME_LEN,
};

fn push_u32_be(buf: &mut Vec<u8>, n: u32) {
    buf.extend_from_slice(&n.to_be_bytes());
}

/// A package holding the given (name, contents) files.
fn build_package(files: &[(&[u8], &[u8])]) -> Vec<u8> {
    let index_len: usize = 4 + files.iter().map(|(n, _)| 12 + n.len()).sum::<usize>();
    let body_len: usize = files.iter().map(|(_, c)| c.len()).sum();
    let mut data = Vec::new();
    data.push(HEADER_FIRST);
    push_u32_be(&mut data, 0);
    push_u32_be(&mut data, index_len as u32);
    push_u32_be(&mut data, body_len as u32);
    data.push(HEADER_LAST);
    push_u32_be(&mut data, files.len() as u32);
    let mut offset = 14 + index_len;
    for (name, contents) in files {
        push_u32_be(&mut data, name.len() as u32);
        data.extend_from_slice(name);
        push_u32_be(&mut data, offset as u32);
        push_u32_be(&mut data, contents.len() as u32);
        offset += contents.len();
    }
    for (_, contents) in files {
        data.extend_from_slice(contents);
    }
    data
}

#[test]
fn rejects_path_traversal() {
    let err = resolve_safe_path("/tmp/wxapkg-out", "../evil.js").unwrap_err();
    assert!(err.message().contains("可疑路径"));
}

#[test]
fn rejects_oversized_name_length() {
    let mut data = Vec::new();
    data.push(HEADER_FIRST);
    push_u32_be(&mut data, 0);
    push_u32_be(&mut data, (INDEX_MIN_LEN + 4) as u32);
    push_u32_be(&mut data, 0);
    data.push(HEADER_LAST);
    push_u32_be(&mut data, 1);
    push_u32_be(&mut data, MAX_NAME_LEN + 1);

    let err = read_header(&data, data.len() as u64).unwrap_err();
    assert!(err.message().contains("文件名长度"));
    assert_eq!(err.message(), "文件名长度 16385 超出上限 16384，文件可能损坏");
}

#[test]
fn rejects_header_length_mismatch() {
    let mut data = Vec::new();
    data.push(HEADER_FIRST);
    push_u32_be(&mut data, 0);
    push_u32_be(&mut data, INDEX_MIN_LEN as u32);
    push_u32_be(&mut data, 0);
    data.push(HEADER_LAST);
    push_u32_be(&mut data, 0);
    data.push(0);

    let err = read_header(&data, data.len() as u64).unwrap_err();
    assert!(err.message().contains("header 长度不一致"));
    assert_eq!(err, HeaderError::LayoutMismatch { expected: 18, actual: 19 });
    assert_eq!(err.message(), "header 长度不一致: header 计算 18 字节，实际文件 19 字节");
}

#[test]
fn reads_back_a_built_package() {
    let data = build_package(&[(b"/app-config.json", b"{}"), (b"app-service.js", b"var a = 1;")]);
    let header = read_header(&data, data.len() as u64).unwrap();
    assert_eq!(header.entries.len(), 2);
    let first = &header.entries[0];
    assert_eq!(first.name, "/app-config.json");
    let start = first.offset as usize;
    assert_eq!(&data[start..start + first.size as usize], b"{}");
    let second = &header.entries[1];
    assert_eq!(second.name, "app-service.js");
    let start = second.offset as usize;
    assert_eq!(&data[start..start + second.size as usize], b"var a = 1;");
    for e in &header.entries {
        assert!(validate_entry_bounds(e, data.len() as u64).is_ok());
    }
}

#[test]
fn empty_package_has_no_entries() {
    let data = build_package(&[]);
    assert_eq!(data.len(), 18);
    assert_eq!(read_header(&data, 18).unwrap().entries.len(), 0);
}

#[test]
fn invalid_utf8_names_are_replaced() {
    let data = build_package(&[(&[b'a', 0xFF], b"x")]);
    let header = read_header(&data, data.len() as u64).unwrap();
    assert_eq!(header.entries[0].name, "a\u{FFFD}");
}

#[test]
fn truncated_headers_name_the_field() {
    let err = read_header(&[], 0).unwrap_err();
    assert_eq!(err, HeaderError::Truncated(HeaderField::FirstMark));
    assert_eq!(err.message(), "读取 first header mark 失败: failed to fill whole buffer");
    let err = read_header(&[HEADER_FIRST, 0, 0], 3).unwrap_err();
    assert_eq!(err.message(), "读取 info1 失败: failed to fill whole buffer");
    let mut data = build_package(&[(b"name", b"")]);
    assert_eq!(data.len(), 34);
    data.truncate(20);
    let err = read_header(&data, 34).unwrap_err();
    assert_eq!(err, HeaderError::Truncated(HeaderField::NameLength));
    assert_eq!(err.message(), "读取 name length 失败: failed to fill whole buffer");
    let mut data = build_package(&[(b"name", b"")]);
    data.truncate(24);
    let err = read_header(&data, 34).unwrap_err();
    assert_eq!(err, HeaderError::NameTruncated);
    assert_eq!(err.message(), "读取文件名失败: failed to fill whole buffer");
}

#[test]
fn bad_magic_is_refused() {
    let mut data = build_package(&[]);
    data[13] = 0;
    let err = read_header(&data, 18).unwrap_err();
    assert_eq!(err, HeaderError::BadMagic);
    assert_eq!(err.message(), "不是有效的 wxapkg 文件（header magic 不匹配）");
}

#[test]
fn index_shorter_than_the_count_is_refused() {
    let mut data = Vec::new();
    data.push(HEADER_FIRST);
    push_u32_be(&mut data, 0);
    push_u32_be(&mut data, 2);
    push_u32_be(&mut data, 2);
    data.push(HEADER_LAST);
    push_u32_be(&mut data, 0);
    let err = read_header(&data, 18).unwrap_err();
    assert_eq!(err, HeaderError::IndexTooShort { index_len: 2 });
    assert_eq!(err.message(), "indexInfoLength=2 小于最小值 4，文件可能损坏");
}

#[test]
fn too_many_files_is_refused() {
    let mut data = Vec::new();
    data.push(HEADER_FIRST);
    push_u32_be(&mut data, 0);
    push_u32_be(&mut data, 4);
    push_u32_be(&mut data, 0);
    data.push(HEADER_LAST);
    push_u32_be(&mut data, 1_000_001);
    let err = read_header(&data, 18).unwrap_err();
    assert_eq!(err.message(), "fileCount=1000001 超出上限 1000000，文件可能损坏");
}

#[test]
fn index_length_must_match_the_entries() {
    // Declare one byte more of index and one byte less of body.
    let mut data2 = build_package(&[(b"ab", b"12")]);
    data2[8] += 1;
    data2[12] -= 1;
    let err = read_header(&data2, data2.len() as u64).unwrap_err();
    assert_eq!(err, HeaderError::IndexMismatch { used: 18, cap: 19 });
    assert_eq!(err.message(), "索引区长度不匹配: 实际读取 18 字节，header 声明 19 字节");
    let mut data3 = build_package(&[(b"ab", b"12")]);
    data3[8] -= 1;
    data3[12] += 1;
    let err = read_header(&data3, data3.len() as u64).unwrap_err();
    assert_eq!(err, HeaderError::IndexOverrun { used: 18, cap: 17 });
    assert_eq!(err.message(), "索引区超长: 已读取 18 字节，声明上限 17 字节，文件可能损坏");
}

#[test]
fn file_layout_check() {
    assert_eq!(validate_file_layout(20, 4, 2), Ok(()));
    assert_eq!(
        validate_file_layout(20, 4, 3),
        Err(HeaderError::LayoutMismatch { expected: 21, actual: 20 })
    );
    let err = validate_file_layout(0, u64::MAX, 0).unwrap_err();
    assert_eq!(err, HeaderError::LengthOverflow);
    assert_eq!(err.message(), "header 长度溢出，文件可能损坏");
}

#[test]
fn entry_bounds() {
    let e = Entry { name: "a.js".to_string(), offset: 10, size: 5 };
    assert!(validate_entry_bounds(&e, 15).is_ok());
    let err = validate_entry_bounds(&e, 14).unwrap_err();
    assert_eq!(err.message(), "a.js 范围 [10..15) 超出文件长度 14，文件可能损坏");
    let big = Entry { name: "b".to_string(), offset: 0, size: 536_870_913 };
    let err = validate_entry_bounds(&big, u64::MAX).unwrap_err();
    assert_eq!(err.message(), "b 大小 536870913 超出单文件上限 536870912，文件可能损坏");
}

#[test]
fn safe_paths_are_made_relative() {
    let t = resolve_safe_path("/tmp/out", "/a/b.js").unwrap();
    assert_eq!(t.dest_root, "/tmp/out");
    assert_eq!(t.relative, "a/b.js");
    for style in [PathStyle::Unix, PathStyle::Windows] {
        assert_eq!(safe_relative_path(style, "//./x/...").unwrap(), "./x/...");
        assert_eq!(safe_relative_path(style, "a").unwrap(), "a");
        assert!(safe_relative_path(style, "a/../b").is_err());
        assert!(safe_relative_path(style, "/..").is_err());
        assert!(safe_relative_path(style, "a/..").is_err());
        assert!(safe_relative_path(style, "a..b/c").is_ok());
    }
}

#[test]
fn windows_separators_and_prefixes() {
    assert!(safe_relative_path(PathStyle::Windows, "..\\evil.js").is_err());
    assert!(safe_relative_path(PathStyle::Windows, "a\\..\\b").is_err());
    assert!(safe_relative_path(PathStyle::Windows, "\\abs").is_err());
    assert!(safe_relative_path(PathStyle::Windows, "\\\\server\\share\\x").is_err());
    assert!(safe_relative_path(PathStyle::Windows, "C:evil.js").is_err());
    assert!(safe_relative_path(PathStyle::Windows, "/d:/x").is_err());
    assert_eq!(safe_relative_path(PathStyle::Windows, "a\\b.js").unwrap(), "a\\b.js");
    assert_eq!(safe_relative_path(PathStyle::Unix, "..\\evil.js").unwrap(), "..\\evil.js");
    assert_eq!(safe_relative_path(PathStyle::Unix, "C:x").unwrap(), "C:x");
    let host = host_path_style();
    assert_eq!(resolve_safe_path("/o", "..\\evil.js").is_err(), host == PathStyle::Windows);
}

#[test]
fn plan_stops_at_the_first_refused_entry() {
    let e = |name: &str, offset: u32, size: u32| Entry { name: name.to_string(), offset, size };
    let entries = vec![e("/a.js", 20, 2), e("b/c.js", 22, 3), e("../x", 25, 1), e("d", 26, 1)];
    let (planned, fault) = plan_unpack(PathStyle::Unix, &entries, 30);
    assert_eq!(planned.len(), 2);
    assert_eq!(planned[0].index, 0);
    assert_eq!(planned[0].relative, "a.js");
    assert_eq!((planned[0].start, planned[0].end), (20, 22));
    assert_eq!(planned[1].relative, "b/c.js");
    assert_eq!((planned[1].start, planned[1].end), (22, 25));
    let fault = fault.unwrap();
    assert!(fault.message().contains("可疑路径"));

    let entries = vec![e("a", 0, 5), e("b", 5, 10)];
    let (planned, fault) = plan_unpack(PathStyle::Unix, &entries, 12);
    assert_eq!(planned.len(), 1);
    assert_eq!(fault.unwrap().message(), "b 范围 [5..15) 超出文件长度 12，文件可能损坏");

    let (planned, fault) = plan_unpack(PathStyle::Windows, &entries, 15);
    assert_eq!(planned.len(), 2);
    assert!(fault.is_none());
}

#[test]
fn suspicious_path_message_quotes_the_name() {
    let err = resolve_safe_path("/tmp/out", "../evil.js").unwrap_err();
    assert_eq!(err.message(), "wxapkg 内含可疑路径 \"../evil.js\"，已拒绝（防止路径穿越）");
}

#[test]
fn unpack_directory_name() {
    assert_eq!(unpack_dir_name("__APP__.wxapkg"), "__APP__.wxapkg_unpack");
}

#[test]
fn header_region_covers_the_index() {
    let data = build_package(&[(b"a.js", b"hello"), (b"dir/b.css", b"xyz")]);
    let file_len = data.len() as u64;
    let index_len = 4 + (12 + 4) + (12 + 9);
    let n = header_region_len(&data[..18], file_len);
    assert_eq!(n, 18 + index_len as u64);
    assert!(n < file_len);
    let from_region = read_header(&data[..n as usize], file_len).unwrap();
    let from_whole = read_header(&data, file_len).unwrap();
    assert_eq!(from_region.entries.len(), from_whole.entries.len());
    for (a, b) in from_region.entries.iter().zip(from_whole.entries.iter()) {
        assert_eq!((&a.name, a.offset, a.size), (&b.name, b.offset, b.size));
    }
    assert_eq!(from_region.entries[1].name, "dir/b.css");
    // A head too short to declare an index length asks for the whole file.
    assert_eq!(header_region_len(&data[..8], file_len), file_len);
    // An index length reaching past the file asks for the whole file.
    let mut big = data.clone();
    big[5..9].copy_from_slice(&u32::MAX.to_be_bytes());
    assert_eq!(header_region_len(&big[..18], file_len), file_len);
}
