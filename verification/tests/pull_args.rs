//! The command line of the client, the paths it asks for and where things go.
use lanfile::percent::{encode_path, percent_decode};
use lanfile::pull::args::{parse_args, Kind};
use lanfile::pull::error::Error;
use lanfile::pull::run::{
    basename, dir_message, file_message, join_text, local_file, local_target, run_first, run_listed,
    skip_message, to_not_found, RunStep,
};

#[test]
fn args_parse_args_bare_host_defaults_local_to_cwd() {
    let p = parse_args(&["http://h:1".into(), "sub".into()]).unwrap();
    assert_eq!(p.base, "http://h:1");
    assert_eq!(p.host, "h:1");
    assert_eq!(p.remote, "sub");
    assert_eq!(p.kind, Kind::Auto);
    assert_eq!(p.local, ".");
}

#[test]
fn args_parse_args_bare_host_strips_slashes() {
    let p = parse_args(&["http://h:1/".into(), "/sub/deep/".into()]).unwrap();
    assert_eq!(p.remote, "sub/deep");
    assert_eq!(p.kind, Kind::Auto);
}

#[test]
fn args_parse_args_bare_host_root_defaults_local() {
    let p = parse_args(&["http://h:1".into()]).unwrap();
    assert_eq!(p.remote, "");
    assert_eq!(p.local, "lanfile-root");
}

#[test]
fn args_parse_args_bare_host_explicit_local() {
    let p = parse_args(&["http://h:1".into(), "sub".into(), "./dst".into()]).unwrap();
    assert_eq!(p.local, "./dst");
}

#[test]
fn args_parse_args_empty_errors() {
    assert!(parse_args(&[]).is_err());
}

#[test]
fn args_parse_args_file_direct_link_defaults_local_to_cwd() {
    let p = parse_args(&["http://h:1/files/boards.md".into()]).unwrap();
    assert_eq!(p.base, "http://h:1");
    assert_eq!(p.host, "h:1");
    assert_eq!(p.remote, "boards.md");
    assert_eq!(p.kind, Kind::File);
    assert_eq!(p.local, ".");
}

#[test]
fn args_parse_args_pull_direct_link_is_file() {
    let p = parse_args(&["http://h:1/pull/a/b.txt".into()]).unwrap();
    assert_eq!(p.remote, "a/b.txt");
    assert_eq!(p.kind, Kind::File);
}

#[test]
fn args_parse_args_file_direct_link_explicit_local() {
    let p = parse_args(&["http://h:1/files/x".into(), "./dst".into()]).unwrap();
    assert_eq!(p.local, "./dst");
}

#[test]
fn args_parse_args_direct_link_strips_query_and_fragment() {
    let p = parse_args(&["http://h:1/files/x.txt?v=1#frag".into()]).unwrap();
    assert_eq!(p.remote, "x.txt");
}

#[test]
fn args_parse_args_fragment_after_query_direct_link_is_dir() {
    let p = parse_args(&["http://h:1?x=1#filerserve".into()]).unwrap();
    assert_eq!(p.host, "h:1");
    assert_eq!(p.remote, "filerserve");
    assert_eq!(p.kind, Kind::Dir);
}

#[test]
fn args_parse_args_fragment_direct_link_strips_query() {
    let p = parse_args(&["http://h:1/#filerserve?x=1".into()]).unwrap();
    assert_eq!(p.remote, "filerserve");
    assert_eq!(p.kind, Kind::Dir);
}

#[test]
fn args_parse_args_path_only_url_is_a_remote() {
    let p = parse_args(&["http://h:1/.pi".into()]).unwrap();
    assert_eq!(p.host, "h:1");
    assert_eq!(p.remote, ".pi");
    assert_eq!(p.kind, Kind::Auto);
    assert_eq!(p.local, ".");
    let p = parse_args(&["http://h:1/a/b".into(), "./dst".into()]).unwrap();
    assert_eq!(p.remote, "a/b");
    assert_eq!(p.kind, Kind::Auto);
    assert_eq!(p.local, "./dst");
    let p = parse_args(&["http://h:1/.pi#x".into()]).unwrap();
    assert_eq!(p.remote, ".pi");
    let p = parse_args(&["http://h:1/".into(), "sub".into()]).unwrap();
    assert_eq!(p.remote, "sub");
    assert_eq!(p.kind, Kind::Auto);
}

#[test]
fn args_parse_args_flat_flag_after_local() {
    let p = parse_args(&[
        "http://h:1".into(),
        "sub".into(),
        "./dst".into(),
        "--flat".into(),
    ])
    .unwrap();
    assert_eq!(p.remote, "sub");
    assert_eq!(p.local, "./dst");
    assert!(p.flat);
}

#[test]
fn args_parse_args_flat_short_flag_no_local() {
    let p = parse_args(&["http://h:1".into(), "sub".into(), "-f".into()]).unwrap();
    assert_eq!(p.remote, "sub");
    assert_eq!(p.local, ".");
    assert!(p.flat);
}

#[test]
fn args_parse_args_flat_root() {
    let p = parse_args(&["http://h:1".into(), "--flat".into()]).unwrap();
    assert_eq!(p.remote, "");
    assert_eq!(p.local, "lanfile-root");
    assert!(p.flat);
}

#[test]
fn args_parse_args_file_direct_link_flat() {
    let p =
        parse_args(&["http://h:1/files/x".into(), "./dst".into(), "--flat".into()]).unwrap();
    assert_eq!(p.remote, "x");
    assert_eq!(p.kind, Kind::File);
    assert_eq!(p.local, "./dst");
    assert!(p.flat);
}

#[test]
fn args_parse_args_no_flat_by_default() {
    let p = parse_args(&["http://h:1".into(), "sub".into(), "./dst".into()]).unwrap();
    assert!(!p.flat);
}

#[test]
fn args_parse_args_zip_direct_link_is_dir() {
    let p = parse_args(&["http://h:1/api/zip/filerserve".into()]).unwrap();
    assert_eq!(p.host, "h:1");
    assert_eq!(p.remote, "filerserve");
    assert_eq!(p.kind, Kind::Dir);
    assert_eq!(p.local, ".");
}

#[test]
fn args_parse_args_list_direct_link_is_dir() {
    let p = parse_args(&["http://h:1/api/list/a/b".into()]).unwrap();
    assert_eq!(p.remote, "a/b");
    assert_eq!(p.kind, Kind::Dir);
}

#[test]
fn args_parse_args_fragment_direct_link_is_dir() {
    let p = parse_args(&["http://h:1/#filerserve".into()]).unwrap();
    assert_eq!(p.remote, "filerserve");
    assert_eq!(p.kind, Kind::Dir);
    let p = parse_args(&["http://h:1#filerserve".into()]).unwrap();
    assert_eq!(p.remote, "filerserve");
    assert_eq!(p.kind, Kind::Dir);
}

#[test]
fn args_parse_args_dir_direct_link_explicit_local_and_flat() {
    let p = parse_args(&[
        "http://h:1/api/zip/filerserve".into(),
        "./dst".into(),
        "--flat".into(),
    ])
    .unwrap();
    assert_eq!(p.local, "./dst");
    assert!(p.flat);
}

#[test]
fn args_parse_args_route_prefix_without_name_is_not_a_direct_link() {
    let p = parse_args(&["http://h:1/api/zip/".into(), "./dst".into()]).unwrap();
    assert_eq!(p.remote, "api/zip");
    assert_eq!(p.kind, Kind::Auto);
    assert_eq!(p.local, "./dst");
}

#[test]
fn args_percent_decode_basic() {
    assert_eq!(percent_decode("boards.md"), "boards.md");
    assert_eq!(percent_decode("a%20b.txt"), "a b.txt");
    assert_eq!(percent_decode("%E4%B8%AD"), "中");
    assert_eq!(percent_decode("a%2z.txt"), "a%2z.txt");
}

#[test]
fn lib_parse_args_bare_host_defaults_local_to_cwd() {
    let p = parse_args(&["http://h:1".into(), "sub".into()]).unwrap();
    assert_eq!(p.base, "http://h:1");
    assert_eq!(p.host, "h:1");
    assert_eq!(p.remote, "sub");
    assert_eq!(p.kind, Kind::Auto);
    assert_eq!(p.local, ".");
}

#[test]
fn lib_parse_args_bare_host_strips_slashes() {
    let p = parse_args(&["http://h:1/".into(), "/sub/deep/".into()]).unwrap();
    assert_eq!(p.remote, "sub/deep");
    assert_eq!(p.kind, Kind::Auto);
}

#[test]
fn lib_parse_args_bare_host_root_defaults_local() {
    let p = parse_args(&["http://h:1".into()]).unwrap();
    assert_eq!(p.remote, "");
    assert_eq!(p.local, "lanfile-root");
}

#[test]
fn lib_parse_args_bare_host_explicit_local() {
    let p = parse_args(&["http://h:1".into(), "sub".into(), "./dst".into()]).unwrap();
    assert_eq!(p.local, "./dst");
}

#[test]
fn lib_parse_args_empty_errors() {
    assert!(parse_args(&[]).is_err());
}

#[test]
fn lib_parse_args_file_direct_link_defaults_local_to_cwd() {
    let p = parse_args(&["http://h:1/files/boards.md".into()]).unwrap();
    assert_eq!(p.base, "http://h:1");
    assert_eq!(p.host, "h:1");
    assert_eq!(p.remote, "boards.md");
    assert_eq!(p.kind, Kind::File);
    assert_eq!(p.local, ".");
}

#[test]
fn lib_parse_args_pull_direct_link_is_file() {
    let p = parse_args(&["http://h:1/pull/a/b.txt".into()]).unwrap();
    assert_eq!(p.remote, "a/b.txt");
    assert_eq!(p.kind, Kind::File);
}

#[test]
fn lib_parse_args_file_direct_link_explicit_local() {
    let p = parse_args(&["http://h:1/files/x".into(), "./dst".into()]).unwrap();
    assert_eq!(p.local, "./dst");
}

#[test]
fn lib_parse_args_direct_link_strips_query_and_fragment() {
    let p = parse_args(&["http://h:1/files/x.txt?v=1#frag".into()]).unwrap();
    assert_eq!(p.remote, "x.txt");
}

#[test]
fn lib_parse_args_fragment_after_query_direct_link_is_dir() {
    let p = parse_args(&["http://h:1?x=1#filerserve".into()]).unwrap();
    assert_eq!(p.host, "h:1");
    assert_eq!(p.remote, "filerserve");
    assert_eq!(p.kind, Kind::Dir);
}

#[test]
fn lib_parse_args_fragment_direct_link_strips_query() {
    let p = parse_args(&["http://h:1/#filerserve?x=1".into()]).unwrap();
    assert_eq!(p.remote, "filerserve");
    assert_eq!(p.kind, Kind::Dir);
}

#[test]
fn lib_parse_args_path_only_url_is_a_remote() {
    let p = parse_args(&["http://h:1/.pi".into()]).unwrap();
    assert_eq!(p.host, "h:1");
    assert_eq!(p.remote, ".pi");
    assert_eq!(p.kind, Kind::Auto);
    assert_eq!(p.local, ".");
    let p = parse_args(&["http://h:1/a/b".into(), "./dst".into()]).unwrap();
    assert_eq!(p.remote, "a/b");
    assert_eq!(p.kind, Kind::Auto);
    assert_eq!(p.local, "./dst");
    let p = parse_args(&["http://h:1/.pi#x".into()]).unwrap();
    assert_eq!(p.remote, ".pi");
    let p = parse_args(&["http://h:1/".into(), "sub".into()]).unwrap();
    assert_eq!(p.remote, "sub");
    assert_eq!(p.kind, Kind::Auto);
}

#[test]
fn lib_parse_args_flat_flag_after_local() {
    let p = parse_args(&[
        "http://h:1".into(),
        "sub".into(),
        "./dst".into(),
        "--flat".into(),
    ])
    .unwrap();
    assert_eq!(p.remote, "sub");
    assert_eq!(p.local, "./dst");
    assert!(p.flat);
}

#[test]
fn lib_parse_args_flat_short_flag_no_local() {
    let p = parse_args(&["http://h:1".into(), "sub".into(), "-f".into()]).unwrap();
    assert_eq!(p.remote, "sub");
    assert_eq!(p.local, ".");
    assert!(p.flat);
}

#[test]
fn lib_parse_args_flat_root() {
    let p = parse_args(&["http://h:1".into(), "--flat".into()]).unwrap();
    assert_eq!(p.remote, "");
    assert_eq!(p.local, "lanfile-root");
    assert!(p.flat);
}

#[test]
fn lib_parse_args_file_direct_link_flat() {
    let p =
        parse_args(&["http://h:1/files/x".into(), "./dst".into(), "--flat".into()]).unwrap();
    assert_eq!(p.remote, "x");
    assert_eq!(p.kind, Kind::File);
    assert_eq!(p.local, "./dst");
    assert!(p.flat);
}

#[test]
fn lib_parse_args_no_flat_by_default() {
    let p = parse_args(&["http://h:1".into(), "sub".into(), "./dst".into()]).unwrap();
    assert!(!p.flat);
}

#[test]
fn lib_parse_args_zip_direct_link_is_dir() {
    let p = parse_args(&["http://h:1/api/zip/filerserve".into()]).unwrap();
    assert_eq!(p.host, "h:1");
    assert_eq!(p.remote, "filerserve");
    assert_eq!(p.kind, Kind::Dir);
    assert_eq!(p.local, ".");
}

#[test]
fn lib_parse_args_list_direct_link_is_dir() {
    let p = parse_args(&["http://h:1/api/list/a/b".into()]).unwrap();
    assert_eq!(p.remote, "a/b");
    assert_eq!(p.kind, Kind::Dir);
}

#[test]
fn lib_parse_args_fragment_direct_link_is_dir() {
    let p = parse_args(&["http://h:1/#filerserve".into()]).unwrap();
    assert_eq!(p.remote, "filerserve");
    assert_eq!(p.kind, Kind::Dir);
    let p = parse_args(&["http://h:1#filerserve".into()]).unwrap();
    assert_eq!(p.remote, "filerserve");
    assert_eq!(p.kind, Kind::Dir);
}

#[test]
fn lib_parse_args_dir_direct_link_explicit_local_and_flat() {
    let p = parse_args(&[
        "http://h:1/api/zip/filerserve".into(),
        "./dst".into(),
        "--flat".into(),
    ])
    .unwrap();
    assert_eq!(p.local, "./dst");
    assert!(p.flat);
}

#[test]
fn lib_parse_args_route_prefix_without_name_is_not_a_direct_link() {
    let p = parse_args(&["http://h:1/api/zip/".into(), "./dst".into()]).unwrap();
    assert_eq!(p.remote, "api/zip");
    assert_eq!(p.kind, Kind::Auto);
    assert_eq!(p.local, "./dst");
}

#[test]
fn lib_percent_decode_basic() {
    assert_eq!(percent_decode("boards.md"), "boards.md");
    assert_eq!(percent_decode("a%20b.txt"), "a b.txt");
    assert_eq!(percent_decode("%E4%B8%AD"), "中");
    assert_eq!(percent_decode("a%2z.txt"), "a%2z.txt");
}

#[test]
fn local_target_wraps_named_remote_in_basename_layer() {
    assert_eq!(
        local_target("./dst", "sub", false),
        "./dst/sub"
    );
    assert_eq!(
        local_target("./dst", "a/b", false),
        "./dst/b"
    );
    assert_eq!(
        local_target("./dst", "/sub/", false),
        "./dst/sub"
    );
}

#[test]
fn local_target_root_has_no_wrap() {
    assert_eq!(
        local_target("./dst", "", false),
        "./dst"
    );
    assert_eq!(
        local_target("./dst", "/", false),
        "./dst"
    );
}

#[test]
fn local_target_flat_drops_basename_layer() {
    assert_eq!(
        local_target("./dst", "sub", true),
        "./dst"
    );
    assert_eq!(
        local_target("./dst", "a/b", true),
        "./dst"
    );
    assert_eq!(
        local_target("./dst", "", true),
        "./dst"
    );
}

#[test]
fn lib_encode_path_keeps_unreserved_and_slash() {
    assert_eq!(encode_path("sub/a_b-1.txt"), "sub/a_b-1.txt");
}

#[test]
fn lib_encode_path_percent_encodes_space_and_unicode() {
    assert_eq!(encode_path("a b.txt"), "a%20b.txt");
    assert_eq!(encode_path("中"), "%E4%B8%AD");
}

#[test]
fn fetch_encode_path_keeps_unreserved_and_slash() {
    assert_eq!(encode_path("sub/a_b-1.txt"), "sub/a_b-1.txt");
}

#[test]
fn fetch_encode_path_percent_encodes_space_and_unicode() {
    assert_eq!(encode_path("a b.txt"), "a%20b.txt");
    assert_eq!(encode_path("中"), "%E4%B8%AD");
}

#[test]
fn args_are_counted() {
    let many: Vec<String> = vec!["http://h".into(), "a".into(), "b".into(), "c".into()];
    assert!(matches!(parse_args(&many), Err(Error::Malformed(_))));
    let direct: Vec<String> = vec!["http://h/files/x".into(), "a".into(), "b".into()];
    assert!(matches!(parse_args(&direct), Err(Error::Malformed(_))));
}

#[test]
fn only_http_is_understood() {
    let Err(error) = parse_args(&["https://h".into()]) else {
        panic!("https is not supported");
    };
    assert_eq!(error.message(), "base_url 必须以 http:// 开头（不支持 https）");
    let Err(error) = parse_args(&[]) else {
        panic!("no arguments");
    };
    assert_eq!(
        error.message(),
        "用法: lanfile get <base_url|直链> [<remote_dir>] [local_dir] [--flat]"
    );
}

#[test]
fn host_without_slash_before_fragment() {
    let p = parse_args(&["http://h:1#docs".into()]).unwrap();
    assert_eq!(p.host, "h:1");
    assert_eq!(p.remote, "docs");
    assert_eq!(p.kind, Kind::Dir);
}

#[test]
fn an_encoded_path_reads_back() {
    for path in ["", "a b/c%d", "中文/é", "~-_.", "100%"] {
        assert_eq!(percent_decode(&encode_path(path)), path);
    }
    assert_eq!(percent_decode("%zz%4"), "%zz%4");
    assert_eq!(percent_decode("%ff"), "\u{fffd}");
}

#[test]
fn basename_is_the_last_name() {
    assert_eq!(basename("a/b/c"), Some("c".to_string()));
    assert_eq!(basename("中/文//"), Some("文".to_string()));
    assert_eq!(basename("plain"), Some("plain".to_string()));
    assert_eq!(basename("//"), None);
    assert_eq!(basename(""), None);
}

#[test]
fn files_go_into_the_local_directory() {
    assert_eq!(local_file(".", "a/b.txt"), "./b.txt");
    assert_eq!(local_file("out", ""), "out/download");
    assert_eq!(join_text("", "x"), "x");
    assert_eq!(join_text("a/", "x"), "a/x");
    assert_eq!(join_text("a", "/x"), "/x");
}

#[test]
fn a_missing_path_is_reported_as_such() {
    let missing = || Error::Http { status: 404, path: "/api/list/x".to_string() };
    assert_eq!(
        to_not_found(missing(), "x").message(),
        "远端 `x` 不存在（既不是目录也不是文件）"
    );
    assert!(matches!(run_first(Kind::File), RunStep::FetchFile));
    assert!(matches!(run_first(Kind::Auto), RunStep::List));
    assert!(matches!(run_first(Kind::Dir), RunStep::List));
    assert!(matches!(run_listed(Kind::Auto, "x", None), RunStep::Mirror));
    assert!(matches!(run_listed(Kind::Auto, "x", Some(missing())), RunStep::FetchFile));
    assert!(matches!(
        run_listed(Kind::Dir, "x", Some(missing())),
        RunStep::Fail(Error::NotFound { .. })
    ));
    let other = Error::Http { status: 500, path: "/p".to_string() };
    assert!(matches!(
        run_listed(Kind::Auto, "x", Some(other)),
        RunStep::Fail(Error::Http { status: 500, .. })
    ));
}

#[test]
fn errors_say_what_happened() {
    let connect = Error::Connect { host: "h:1".to_string(), reason: "refused".to_string() };
    assert_eq!(connect.message(), "连接 `h:1` 失败：refused");
    let http = Error::Http { status: 503, path: "/x".to_string() };
    assert_eq!(http.message(), "HTTP 503 请求 /x");
    assert_eq!(
        Error::Timeout { phase: "连接" }.message(),
        "连接超时：远端在约定时间内没有应答"
    );
    let short = Error::Truncated { remote: "r".to_string(), want: 10, got: 3 };
    assert_eq!(short.message(), "远端 `r` 传输不完整：应得 10 字节，只收到 3 字节");
    assert_eq!(Error::Io("disk".to_string()).message(), "disk");
    assert_eq!(Error::Json("eof".to_string()).message(), "eof");
    assert_eq!(skip_message("a/b", &short), format!("  跳过 a/b：{}", short.message()));
}

#[test]
fn reports_name_source_and_target() {
    assert_eq!(
        dir_message("http://h", "docs", "./docs", 3, 120, 1),
        "lanfile get: http://h/docs -> ./docs（3 文件，120 字节，1 目录）"
    );
    assert_eq!(
        file_message("http://h", "a.tgz", "./a.tgz", 0),
        "lanfile get: http://h/a.tgz -> ./a.tgz（0 字节）"
    );
}

#[test]
fn a_path_behind_the_host_is_the_remote() {
    for sub in [".pi", "docs/a", "files", "/x/", "a b", "///"] {
        let long = parse_args(&[format!("http://h:1/{sub}")]).unwrap();
        let short = parse_args(&["http://h:1".into(), sub.into()]).unwrap();
        assert_eq!(long.base, short.base);
        assert_eq!(long.host, short.host);
        assert_eq!(long.remote, short.remote);
        assert_eq!(long.kind, short.kind);
        assert_eq!(long.local, short.local);
        assert_eq!(long.flat, short.flat);
    }
}

#[test]
fn the_remote_of_a_direct_link_has_no_slash_at_its_ends() {
    let p = parse_args(&["http://h:1/files/a/".into()]).unwrap();
    assert_eq!((p.remote.as_str(), p.kind, p.local.as_str()), ("a", Kind::File, "."));
    let p = parse_args(&["http://h:1/pull//a/b//".into()]).unwrap();
    assert_eq!((p.remote.as_str(), p.kind), ("a/b", Kind::File));
    let p = parse_args(&["http://h:1/api/zip/docs/".into()]).unwrap();
    assert_eq!((p.remote.as_str(), p.kind), ("docs", Kind::Dir));
    let p = parse_args(&["http://h:1/#/docs/".into()]).unwrap();
    assert_eq!((p.remote.as_str(), p.kind), ("docs", Kind::Dir));
    let p = parse_args(&["http://h:1/files/%2Fa%2F".into()]).unwrap();
    assert_eq!((p.remote.as_str(), p.kind), ("a", Kind::File));
    let p = parse_args(&["http://h:1/x%2F".into()]).unwrap();
    assert_eq!((p.remote.as_str(), p.kind), ("x", Kind::Auto));
}

#[test]
fn a_link_keeps_its_kind_whatever_it_decodes_to() {
    let p = parse_args(&["http://h:1/files//".into()]).unwrap();
    assert_eq!((p.remote.as_str(), p.kind, p.local.as_str()), ("", Kind::File, "lanfile-root"));
    let p = parse_args(&["http://h:1/api/list/%2F".into(), "dst".into()]).unwrap();
    assert_eq!((p.remote.as_str(), p.kind, p.local.as_str()), ("", Kind::Dir, "dst"));
    let p = parse_args(&["http://h:1/#%2F".into(), "dst".into()]).unwrap();
    assert_eq!((p.remote.as_str(), p.kind, p.local.as_str()), ("", Kind::Dir, "dst"));
}

#[test]
fn a_path_of_escaped_slashes_is_still_a_link() {
    let p = parse_args(&["http://h:1/%2F".into(), "foo".into()]).unwrap();
    assert_eq!((p.remote.as_str(), p.kind, p.local.as_str()), ("", Kind::Auto, "foo"));
    let two = parse_args(&["http://h:1/%2F".into(), "foo".into(), "bar".into()]);
    assert!(matches!(two, Err(Error::Malformed(_))));
    // Only slashes as such name the host alone: the next argument is the remote path.
    let p = parse_args(&["http://h:1//".into(), "foo".into()]).unwrap();
    assert_eq!((p.remote.as_str(), p.local.as_str()), ("foo", "."));
    let p = parse_args(&["http://h:1/#//?x".into(), "foo".into()]).unwrap();
    assert_eq!((p.remote.as_str(), p.local.as_str()), ("foo", "."));
}

#[test]
fn a_path_behind_the_host_takes_further_arguments() {
    for more in [vec!["dst"], vec!["dst", "-f"], vec!["--flat"], vec!["a", "b"]] {
        let mut long = vec!["http://h:1/docs".to_string()];
        let mut short = vec!["http://h:1".to_string(), "docs".to_string()];
        for arg in more {
            long.push(arg.to_string());
            short.push(arg.to_string());
        }
        match (parse_args(&long), parse_args(&short)) {
            (Ok(a), Ok(b)) => {
                assert_eq!((a.remote, a.local, a.flat), (b.remote, b.local, b.flat));
            }
            (Err(a), Err(b)) => assert_eq!(a.message(), b.message()),
            _ => panic!("one is understood and the other is not"),
        }
    }
}
