use wxapkg::cli::{
    is_wxapkg_file, needs_decrypt, parse_args_from, resolve_wxid, run_with_args, scan_report,
    sorted_order, str_le, summarize_batch, ArgError, Args, Outcome, ParseArgs, PathKind,
};
use wxapkg::logging::LogLevel;

fn strings(v: Vec<&str>) -> Vec<String> {
    v.into_iter().map(|s| s.to_string()).collect()
}

fn never_inspect(_: &String) -> PathKind {
    panic!("the path is not inspected")
}

fn never_process(_: Args, _: PathKind) -> Result<(), String> {
    panic!("nothing is processed")
}

#[test]
fn help_flag_returns_usage() {
    let outcome = run_with_args(strings(vec!["--help"]), never_inspect, never_process);
    assert_eq!(outcome, Ok(Outcome::Usage));
}

#[test]
fn missing_path_returns_error() {
    let err = run_with_args(Vec::<String>::new(), never_inspect, never_process).unwrap_err();
    assert!(err.contains("缺少 <path> 参数"));
}

#[test]
fn unknown_flag_returns_error() {
    let err = parse_args_from(strings(vec!["--bad"])).unwrap_err();
    assert!(err.message().contains("未知参数"));
}

#[test]
fn wxid_requires_value() {
    let err = parse_args_from(strings(vec!["/tmp/a.wxapkg", "-w"])).unwrap_err();
    assert!(err.message().contains("缺少参数"));
}

#[test]
fn quiet_and_verbose_conflict() {
    let err = parse_args_from(strings(vec!["/tmp/a.wxapkg", "--quiet", "--verbose"])).unwrap_err();
    assert!(err.message().contains("不能同时使用"));
}

#[test]
fn parse_valid_args_with_quiet() {
    let parsed = parse_args_from(strings(vec!["/tmp/a.wxapkg", "-w", "wx123", "--quiet"])).unwrap();
    let ParseArgs::Run(args) = parsed else {
        panic!("expected run args");
    };
    assert_eq!(args.path, "/tmp/a.wxapkg");
    assert_eq!(args.wxid.as_deref(), Some("wx123"));
    assert_eq!(args.log_level, LogLevel::Quiet);
}

#[test]
fn unknown_flag_message_names_the_flag() {
    let err = parse_args_from(strings(vec!["-x"])).unwrap_err();
    assert_eq!(err.message(), "未知参数: -x");
}

#[test]
fn double_dash_takes_the_next_argument_as_path() {
    let parsed = parse_args_from(strings(vec!["-v", "--", "-odd-name.wxapkg"])).unwrap();
    let ParseArgs::Run(args) = parsed else {
        panic!("expected run args");
    };
    assert_eq!(args.path, "-odd-name.wxapkg");
    assert_eq!(args.wxid, None);
    assert_eq!(args.log_level, LogLevel::Verbose);
}

#[test]
fn double_dash_errors() {
    let err = parse_args_from(strings(vec!["--"])).unwrap_err();
    assert_eq!(err.message(), "`--` 后缺少 <path> 参数");
    let err = parse_args_from(strings(vec!["a", "--", "b"])).unwrap_err();
    assert_eq!(err.message(), "参数过多，仅支持一个 <path>");
    let err = parse_args_from(strings(vec!["--", "a", "b"])).unwrap_err();
    assert_eq!(err.message(), "参数过多，仅支持一个 <path>");
}

#[test]
fn second_path_is_refused() {
    let err = parse_args_from(strings(vec!["a", "b"])).unwrap_err();
    assert_eq!(err.message(), "参数过多，仅支持一个 <path>");
}

#[test]
fn help_wins_over_later_errors() {
    let parsed = parse_args_from(strings(vec!["--help", "--bad", "a", "b"])).unwrap();
    assert!(matches!(parsed, ParseArgs::Help));
    let parsed = parse_args_from(strings(vec!["a", "-h"])).unwrap();
    assert!(matches!(parsed, ParseArgs::Help));
}

#[test]
fn single_path_runs_at_normal_level() {
    let parsed = parse_args_from(strings(vec!["pkg.wxapkg"])).unwrap();
    let ParseArgs::Run(args) = parsed else {
        panic!("expected run args");
    };
    assert_eq!(args.path, "pkg.wxapkg");
    assert_eq!(args.wxid, None);
    assert_eq!(args.log_level, LogLevel::Normal);
}

#[test]
fn long_wxid_flag_is_read() {
    let parsed = parse_args_from(strings(vec!["--wxid", "wxabc", "p"])).unwrap();
    let ParseArgs::Run(args) = parsed else {
        panic!("expected run args");
    };
    assert_eq!(args.wxid.as_deref(), Some("wxabc"));
    assert_eq!(args.path, "p");
}

#[test]
fn run_reports_an_unusable_path() {
    let err = run_with_args(strings(vec!["/no/such"]), |_| PathKind::Other, never_process)
        .unwrap_err();
    assert_eq!(err, "路径不存在或不可处理: /no/such（仅支持文件或目录）");
}

#[test]
fn run_hands_a_file_to_processing() {
    let outcome = run_with_args(
        strings(vec!["x.wxapkg", "-q"]),
        |p| {
            assert_eq!(p, "x.wxapkg");
            PathKind::File
        },
        |args, kind| {
            assert_eq!(kind, PathKind::File);
            assert_eq!(args.log_level, LogLevel::Quiet);
            Ok(())
        },
    );
    assert_eq!(outcome, Ok(Outcome::Success));
    let failed = run_with_args(
        strings(vec!["d"]),
        |_| PathKind::Dir,
        |_, _| Err("boom".to_string()),
    );
    assert_eq!(failed, Err("boom".to_string()));
}

#[test]
fn package_file_names() {
    assert!(is_wxapkg_file("__APP__.wxapkg"));
    assert!(is_wxapkg_file("a.WXAPKG"));
    assert!(is_wxapkg_file("x.WxApKg"));
    assert!(!is_wxapkg_file(".wxapkg"));
    assert!(!is_wxapkg_file("wxapkg"));
    assert!(!is_wxapkg_file("note.txt"));
    assert!(!is_wxapkg_file("a.wxapkg.bak"));
    assert!(!is_wxapkg_file("a.wxapkg_decrypt"));
    assert!(!is_wxapkg_file(""));
}

#[test]
fn magic_byte_decides_decryption() {
    assert!(!needs_decrypt(0xBE));
    assert!(needs_decrypt(0x56));
    assert!(needs_decrypt(0));
}

#[test]
fn wxid_from_argument_or_path() {
    let from_arg = resolve_wxid("/x/y.wxapkg", Some("wxgiven".to_string()));
    assert_eq!(from_arg, Ok("wxgiven".to_string()));
    let from_path = resolve_wxid(r"C:\data\packages\wx0123\7\__APP__.wxapkg", None);
    assert_eq!(from_path, Ok("wx0123".to_string()));
    let err = resolve_wxid("/x/y.wxapkg", None).unwrap_err();
    assert!(err.starts_with("/x/y.wxapkg 已加密，但无法识别 wxid"));
}

#[test]
fn scan_report_counts_packages() {
    assert_eq!(scan_report("/d", 3), Ok("目录 /d 下找到 3 个 .wxapkg 文件".to_string()));
    let err = scan_report("/d", 0).unwrap_err();
    assert!(err.contains("未找到 .wxapkg"));
}

#[test]
fn batch_summary_without_failures() {
    assert_eq!(summarize_batch(4, &Vec::new()), Ok("批量处理完成: 成功 4，失败 0".to_string()));
}

#[test]
fn batch_summary_lists_first_five_failures() {
    let failures: Vec<(String, String)> =
        (1..=7).map(|i| (format!("p{}", i), format!("e{}", i))).collect();
    let err = summarize_batch(10, &failures).unwrap_err();
    assert_eq!(
        err,
        "批量处理完成: 成功 3，失败 7\n1. p1: e1\n2. p2: e2\n3. p3: e3\n4. p4: e4\n5. p5: e5\n... 其余 2 个失败请开启 --verbose 逐个排查"
    );
    let two = vec![("a".to_string(), "x".to_string()), ("b".to_string(), "y".to_string())];
    assert_eq!(
        summarize_batch(2, &two),
        Err("批量处理完成: 成功 0，失败 2\n1. a: x\n2. b: y".to_string())
    );
}

#[test]
fn packages_are_ordered_by_path() {
    let keys = strings(vec!["/d/b.wxapkg", "/d/a.wxapkg", "/d/c.wxapkg", "/d/a.wxapkg"]);
    assert_eq!(sorted_order(&keys), vec![1, 3, 0, 2]);
    let keys = strings(vec!["/d/nested/b.wxapkg", "/d/a.wxapkg", "/d/z", "/d/nested"]);
    assert_eq!(sorted_order(&keys), vec![1, 3, 0, 2]);
    assert_eq!(sorted_order(&Vec::new()), Vec::<usize>::new());
}

#[test]
fn character_order_of_strings() {
    assert!(str_le("a", "b"));
    assert!(str_le("ab", "abc"));
    assert!(!str_le("abc", "ab"));
    assert!(str_le("", ""));
    assert!(str_le("Z", "a"));
    assert!(!str_le("é", "z"));
}

#[test]
fn argument_order_does_not_matter() {
    let a = parse_args_from(strings(vec!["a.wxapkg", "-q", "-w", "wx1"])).unwrap();
    let b = parse_args_from(strings(vec!["-w", "wx1", "-q", "a.wxapkg"])).unwrap();
    let (ParseArgs::Run(a), ParseArgs::Run(b)) = (a, b) else {
        panic!("expected run args");
    };
    assert_eq!(a.path, b.path);
    assert_eq!(a.wxid, b.wxid);
    assert_eq!(a.log_level, b.log_level);
}

#[test]
fn any_reordering_with_one_wxid_keeps_the_outcome() {
    let orders = [
        vec!["-v", "a.wxapkg", "--wxid", "wx9"],
        vec!["--wxid", "wx9", "-v", "a.wxapkg"],
        vec!["a.wxapkg", "-v", "--wxid", "wx9"],
        vec!["-v", "--wxid", "wx9", "a.wxapkg"],
    ];
    for order in &orders {
        let ParseArgs::Run(a) = parse_args_from(strings(order.clone())).unwrap() else {
            panic!("expected run args");
        };
        assert_eq!(a.path, "a.wxapkg");
        assert_eq!(a.wxid.as_deref(), Some("wx9"));
        assert_eq!(a.log_level, LogLevel::Verbose);
    }
    for order in [vec!["a", "-q", "b"], vec!["b", "a", "-q"], vec!["-q", "b", "a"]] {
        assert!(matches!(parse_args_from(strings(order)), Err(ArgError::TooManyPaths)));
    }
}
