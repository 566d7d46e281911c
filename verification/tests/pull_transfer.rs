//! Requests, response heads, bodies and the mirroring of a tree.
use lanfile::pull::error::Error;
use lanfile::pull::fetch::{
    fetch_next, file_request, list_length, list_request, list_whole, FetchAction, FetchEvent,
    FetchState, RemoteEntry,
};
use lanfile::pull::http::{
    read_size, request_text, status_code, take_content_length, Attempt, Get, GetStep, Head, Pool,
};
use lanfile::pull::mirror::{Mirror, MirrorAction, MirrorEvent};
use lanfile::routes::pull_sub_path;

#[test]
fn a_request_keeps_the_connection() {
    assert_eq!(
        request_text("h:1", "/pull/a"),
        "GET /pull/a HTTP/1.1\r\nHost: h:1\r\n\r\n"
    );
    assert_eq!(list_request(""), "/api/list");
    assert_eq!(list_request("a b"), "/api/list/a%20b");
    assert_eq!(file_request("a/中"), "/pull/a/%E4%B8%AD");
}

#[test]
fn status_codes_are_read_from_status_lines() {
    assert_eq!(status_code("HTTP/1.1 200 OK\r\n"), Some(200));
    assert_eq!(status_code("HTTP/1.1 \t 404\r\n"), Some(404));
    assert_eq!(status_code("HTTP/1.1\t200 OK"), Some(200));
    assert_eq!(status_code(" \r\nHTTP/1.1\x0c301\tMoved"), Some(301));
    for line in ["HTTP/1.1 200 OK\r\n", "HTTP/1.1 404 Not Found\r\n", "a\tb 200", "\t200 7"] {
        let second = line.split_ascii_whitespace().nth(1);
        assert_eq!(status_code(line), second.and_then(|word| word.parse().ok()), "{line}");
    }
    assert_eq!(status_code("HTTP/1.1"), None);
    assert_eq!(status_code("HTTP/1.1 abc"), None);
    assert_eq!(status_code("HTTP/1.1 65536"), None);
    assert_eq!(status_code("HTTP/1.1 "), None);
    assert_eq!(status_code(""), None);
}

#[test]
fn the_length_of_a_body_is_read_from_its_header() {
    let mut length = None;
    assert!(take_content_length("Content-Type: text/html\r\n", &mut length).is_ok());
    assert_eq!(length, None);
    assert!(take_content_length("no colon", &mut length).is_ok());
    assert!(take_content_length(" cOnTeNt-LeNgTh : 42 \r\n", &mut length).is_ok());
    assert_eq!(length, Some(42));
    let error = take_content_length("Content-Length: many", &mut length).unwrap_err();
    assert_eq!(error.message(), "Content-Length 不是合法数字");
    assert_eq!(length, Some(42));
}

#[test]
fn a_head_ends_with_an_empty_line() {
    let mut head = Head::new();
    assert!(matches!(head.line("HTTP/1.1 206 Partial\r\n"), Ok(None)));
    assert!(matches!(head.line("Content-Length: 7\r\n"), Ok(None)));
    assert!(matches!(head.line("X: y\r\n"), Ok(None)));
    assert!(matches!(head.line("\r\n"), Ok(Some((206, Some(7))))));

    let mut bad = Head::new();
    assert_eq!(bad.line("").unwrap_err().message(), "状态行格式异常");

    let mut cut = Head::new();
    assert!(matches!(cut.line("HTTP/1.1 200 OK\r\n"), Ok(None)));
    assert!(matches!(cut.line(""), Ok(Some((200, None)))));
}

#[test]
fn a_connection_is_used_again_once_given_back() {
    let mut pool: Pool<u32> = Pool::new();
    assert!(pool.acquire().is_none());
    pool.release(7);
    assert!(pool.is_idle());
    assert_eq!(pool.acquire(), Some(7));
    assert!(!pool.is_idle());
}

#[test]
fn a_reused_connection_is_retried_once() {
    let io = || Attempt::Failed(Error::Io("reset".to_string()));
    let mut get = Get::new(true);
    assert!(matches!(get.next("/p", io()), GetStep::Retry));
    assert!(matches!(get.next("/p", io()), GetStep::Fail(Error::Io(_))));

    let mut fresh = Get::new(false);
    assert!(matches!(fresh.next("/p", io()), GetStep::Fail(Error::Io(_))));

    let mut slow = Get::new(true);
    let timeout = Attempt::Failed(Error::Timeout { phase: "读取响应" });
    assert!(matches!(slow.next("/p", timeout), GetStep::Fail(Error::Timeout { .. })));

    let mut other = Get::new(true);
    let response = Attempt::Response { status: 404, content_length: Some(0) };
    match other.next("/p", response) {
        GetStep::Fail(Error::Http { status, path }) => {
            assert_eq!(status, 404);
            assert_eq!(path, "/p");
        }
        _ => panic!("only 200 is taken"),
    }
    let ok = Attempt::Response { status: 200, content_length: Some(5) };
    assert!(matches!(Get::new(false).next("/p", ok), GetStep::Body(Some(5))));
    let none = Attempt::NoConnection(Error::Timeout { phase: "连接" });
    assert!(matches!(Get::new(true).next("/p", none), GetStep::Fail(_)));
}

#[test]
fn a_body_is_not_read_beyond_its_end() {
    assert_eq!(read_size(100, 0), 100);
    assert_eq!(read_size(100, 100), 0);
    assert_eq!(read_size(200_000, 0), 65_536);
    assert_eq!(read_size(200_000, 196_608), 3_392);
}

#[test]
fn listings_have_a_length_and_come_whole() {
    assert_eq!(list_length(Some(9)).unwrap(), 9);
    assert_eq!(
        list_length(None).unwrap_err().message(),
        "响应没有 Content-Length，无法确定正文边界"
    );
    assert!(list_whole("r", 9, 9).is_ok());
    assert!(matches!(
        list_whole("r", 9, 8),
        Err(Error::Truncated { want: 9, got: 8, .. })
    ));
}

/// Feeds `reads` to a fetch of `want` bytes and returns its last action.
fn fetch(want: Option<u64>, reads: &[usize]) -> (Vec<usize>, FetchAction) {
    let mut asked = Vec::new();
    let mut reads = reads.iter();
    let (mut state, mut action) =
        fetch_next("r", FetchState::Head, FetchEvent::Head(Ok(want)));
    loop {
        let event = match action {
            FetchAction::Create => FetchEvent::Created(Ok(())),
            FetchAction::Read { max } => {
                asked.push(max);
                FetchEvent::Read(Ok(*reads.next().unwrap()))
            }
            FetchAction::Write { .. } => FetchEvent::Wrote(Ok(())),
            FetchAction::Flush => FetchEvent::Flushed(Ok(())),
            done => return (asked, done),
        };
        (state, action) = fetch_next("r", state, event);
    }
}

#[test]
fn a_file_is_done_when_it_is_whole() {
    let (asked, done) = fetch(Some(70_000), &[65_536, 4_464]);
    assert_eq!(asked, vec![65_536, 4_464]);
    assert!(matches!(done, FetchAction::Done { copied: 70_000 }));
    let (asked, done) = fetch(Some(0), &[]);
    assert!(asked.is_empty());
    assert!(matches!(done, FetchAction::Done { copied: 0 }));
}

#[test]
fn a_file_that_ends_too_soon_is_taken_away() {
    let (_, failed) = fetch(Some(10), &[4, 0]);
    match failed {
        FetchAction::Fail { discard, error: Error::Truncated { remote, want, got } } => {
            assert!(discard);
            assert_eq!((remote.as_str(), want, got), ("r", 10, 4));
        }
        _ => panic!("a short body is an error"),
    }
    let (_, failed) = fetch(None, &[]);
    assert!(matches!(
        failed,
        FetchAction::Fail { discard: false, error: Error::Malformed(_) }
    ));
}

#[test]
fn every_failure_of_a_file_that_was_made_takes_it_away() {
    let io = || Error::Io("gone".to_string());
    let reading = || FetchState::Reading { want: 8, total: 2 };
    let (_, action) = fetch_next("r", reading(), FetchEvent::Read(Err(io())));
    assert!(matches!(action, FetchAction::Fail { discard: true, .. }));
    let writing = FetchState::Writing { want: 8, total: 2, len: 3 };
    let (_, action) = fetch_next("r", writing, FetchEvent::Wrote(Err(io())));
    assert!(matches!(action, FetchAction::Fail { discard: true, .. }));
    let flushing = FetchState::Flushing { want: 8, total: 8 };
    let (_, action) = fetch_next("r", flushing, FetchEvent::Flushed(Err(io())));
    assert!(matches!(action, FetchAction::Fail { discard: true, .. }));
    let creating = FetchState::Creating { want: 8 };
    let (_, action) = fetch_next("r", creating, FetchEvent::Created(Err(io())));
    assert!(matches!(action, FetchAction::Fail { discard: false, .. }));
    let (_, action) = fetch_next("r", FetchState::Head, FetchEvent::Head(Err(io())));
    assert!(matches!(action, FetchAction::Fail { discard: false, .. }));
}

fn entry(name: &str, kind: &str, size: Option<u64>) -> RemoteEntry {
    RemoteEntry { name: name.to_string(), kind: kind.to_string(), size }
}

#[test]
fn a_tree_is_mirrored_depth_first() {
    let top = vec![
        entry("sub", "dir", None),
        entry("same.txt", "file", Some(3)),
        entry("late.txt", "", None),
    ];
    let mut mirror = Mirror::new("docs", "out", top);
    let mut log = Vec::new();
    let mut event = MirrorEvent::Start;
    loop {
        assert!(mirror.accepts(&event));
        event = match mirror.step(event) {
            MirrorAction::CreateDir { local } => {
                log.push(format!("mkdir {local}"));
                MirrorEvent::Created(Ok(()))
            }
            MirrorAction::List { remote } => {
                log.push(format!("list {remote}"));
                let inner = vec![entry("x", "file", Some(9)), entry("bad", "file", Some(1))];
                MirrorEvent::Listed(Ok(inner))
            }
            MirrorAction::Check { local } => {
                log.push(format!("check {local}"));
                MirrorEvent::Checked(if local == "out/same.txt" { Some(3) } else { None })
            }
            MirrorAction::Fetch { remote, local } => {
                log.push(format!("fetch {remote} {local}"));
                MirrorEvent::Fetched(if local.ends_with("bad") {
                    Err(Error::Io("no".to_string()))
                } else {
                    Ok(9)
                })
            }
            MirrorAction::Done => break,
            MirrorAction::Fail(_) => panic!("nothing fails here"),
        };
    }
    assert_eq!(
        log,
        vec![
            "mkdir out/sub",
            "list docs/sub",
            "check out/sub/x",
            "fetch docs/sub/x out/sub/x",
            "check out/sub/bad",
            "fetch docs/sub/bad out/sub/bad",
            "check out/same.txt",
            "fetch docs/late.txt out/late.txt",
        ]
    );
    let stats = mirror.stats();
    assert_eq!((stats.files, stats.dirs, stats.bytes), (4, 1, 18));
}

#[test]
fn a_directory_that_cannot_be_listed_ends_the_mirroring() {
    let mut mirror = Mirror::new("", "out", vec![entry("sub", "dir", None)]);
    assert!(matches!(mirror.step(MirrorEvent::Start), MirrorAction::CreateDir { .. }));
    match mirror.step(MirrorEvent::Created(Ok(()))) {
        MirrorAction::List { remote } => assert_eq!(remote, "sub"),
        _ => panic!("a directory is listed once it is made"),
    }
    assert!(!mirror.accepts(&MirrorEvent::Checked(None)));
    let gone = Error::Http { status: 404, path: "/api/list/sub".to_string() };
    assert!(matches!(
        mirror.step(MirrorEvent::Listed(Err(gone))),
        MirrorAction::Fail(Error::Http { status: 404, .. })
    ));
}

#[test]
fn an_entry_without_a_type_is_a_file() {
    assert!(entry("a", "dir", None).is_dir());
    assert!(!entry("a", "", None).is_dir());
    assert!(!entry("a", "file", Some(1)).is_dir());
}

#[test]
fn the_server_reads_what_the_client_asks_for() {
    for remote in ["a.txt", "a b/c%d.txt", "中文/é+~", ".hidden/..x", "100%"] {
        let asked = pull_sub_path(&file_request(remote));
        assert_eq!(asked.as_deref(), Some(remote));
    }
}
